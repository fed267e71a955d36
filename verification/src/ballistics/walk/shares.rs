//! Each volume's share of a disc crossing.

use crate::ballistics::walk::disc::{DiscCorridor, EntityShare};
use crate::ballistics::walk::extent;
use crate::ballistics::walk::extent::Touch;
use crate::ballistics::walk::presence::EntityPresence;
use crate::ballistics::walk::ray::RayWalk;
use crate::ballistics::walk::vocabulary::Entity;
use crate::float::{F32, F64};
use vstd::prelude::*;

verus! {

/// A stretch clipped to the sample's part of the crossing.
pub open spec fn clipped(span: (F64, F64), lo: F64, hi: F64) -> (F64, F64) {
    (span.0.larger(lo), span.1.smaller(hi))
}

/// What is left of the first `n` stretches.
pub open spec fn clips_of(spans: Seq<(F64, F64)>, lo: F64, hi: F64, n: int) -> Seq<(F64, F64)>
    decreases n,
{
    if n <= 0 {
        Seq::empty()
    } else {
        let rest = clips_of(spans, lo, hi, n - 1);
        let clip = clipped(spans[n - 1], lo, hi);
        if clip.0.below(clip.1) {
            rest.push(clip)
        } else {
            rest
        }
    }
}

/// What is left of the volume's presence among the first `n` of the sample's.
pub open spec fn sample_clips(
    presence: Seq<EntityPresence>,
    entity: Entity,
    lo: F64,
    hi: F64,
    n: int,
) -> Seq<(F64, F64)>
    decreases n,
{
    if n <= 0 {
        Seq::empty()
    } else {
        let rest = sample_clips(presence, entity, lo, hi, n - 1);
        if presence[n - 1].entity == entity {
            rest + clips_of(presence[n - 1].spans@, lo, hi, presence[n - 1].spans@.len() as int)
        } else {
            rest
        }
    }
}

/// What is left of the volume's presence on one covered sample.
pub open spec fn touch_clips(walks: Seq<RayWalk>, touch: Touch, entity: Entity) -> Seq<(F64, F64)> {
    let presence = walks[touch.sample as int].presence@;
    sample_clips(
        presence,
        entity,
        extent::first_run(walks, touch).start,
        extent::last_run(walks, touch).end,
        presence.len() as int,
    )
}

/// The factor of the first among the first `n` of the sample's presences that is
/// the volume's and has something left.
pub open spec fn sample_factor(presence: Seq<EntityPresence>, entity: Entity, lo: F64, hi: F64, n: int) -> Option<F32>
    decreases n,
{
    if n <= 0 {
        None
    } else {
        match sample_factor(presence, entity, lo, hi, n - 1) {
            Some(factor) => Some(factor),
            None => if presence[n - 1].entity == entity && clips_of(
                presence[n - 1].spans@,
                lo,
                hi,
                presence[n - 1].spans@.len() as int,
            ).len() > 0 {
                Some(presence[n - 1].factor)
            } else {
                None
            },
        }
    }
}

/// What is left of the volume's presence on the first `n` covered samples.
pub open spec fn entity_clips(walks: Seq<RayWalk>, touches: Seq<Touch>, entity: Entity, n: int) -> Seq<(F64, F64)>
    decreases n,
{
    if n <= 0 {
        Seq::empty()
    } else {
        entity_clips(walks, touches, entity, n - 1) + touch_clips(walks, touches[n - 1], entity)
    }
}

/// How many of the first `n` covered samples met the volume.
pub open spec fn samples_met(walks: Seq<RayWalk>, touches: Seq<Touch>, entity: Entity, n: int) -> nat
    decreases n,
{
    if n <= 0 {
        0
    } else {
        samples_met(walks, touches, entity, n - 1) + if touch_clips(walks, touches[n - 1], entity).len() > 0 {
            1nat
        } else {
            0nat
        }
    }
}

/// The volume's factor, as the first of the first `n` covered samples that met it has it.
pub open spec fn entity_factor(walks: Seq<RayWalk>, touches: Seq<Touch>, entity: Entity, n: int) -> Option<F32>
    decreases n,
{
    if n <= 0 {
        None
    } else {
        match entity_factor(walks, touches, entity, n - 1) {
            Some(factor) => Some(factor),
            None => {
                let touch = touches[n - 1];
                let presence = walks[touch.sample as int].presence@;
                sample_factor(
                    presence,
                    entity,
                    extent::first_run(walks, touch).start,
                    extent::last_run(walks, touch).end,
                    presence.len() as int,
                )
            },
        }
    }
}

/// The lengths of the first `n` stretches, added in order.
pub open spec fn length_of(spans: Seq<(F64, F64)>, n: int) -> F64
    decreases n,
{
    if n <= 0 {
        F64::zero()
    } else {
        length_of(spans, n - 1).sum(spans[n - 1].1.difference(spans[n - 1].0))
    }
}

/// The share of one volume: its clipped presence over all the disc's samples,
/// charged at its own factor.
pub open spec fn is_share(share: EntityShare, walks: Seq<RayWalk>, touches: Seq<Touch>, k: nat) -> bool {
    let n = touches.len() as int;
    let spans = share.spans@;
    let chord = length_of(spans, spans.len() as int).quotient(F64::whole(k));
    &&& spans == entity_clips(walks, touches, share.entity, n)
    &&& spans.len() > 0
    &&& entity_factor(walks, touches, share.entity, n) == Some(share.factor)
    &&& share.chord == chord.halved()
    &&& share.cost == chord.product(share.factor.doubled()).halved()
    &&& share.coverage == extent::share_of(samples_met(walks, touches, share.entity, n), k)
}

/// The shares of every volume that the crossing meets, in entity order.
pub open spec fn are_shares(shares: Seq<EntityShare>, walks: Seq<RayWalk>, touches: Seq<Touch>, k: nat) -> bool {
    &&& forall|i: int, j: int|
        0 <= i < j < shares.len() ==> (#[trigger] shares[i]).entity.id < (#[trigger] shares[j]).entity.id
    &&& forall|i: int| 0 <= i < shares.len() ==> is_share(#[trigger] shares[i], walks, touches, k)
    &&& forall|entity: Entity|
        (#[trigger] entity_clips(walks, touches, entity, touches.len() as int)).len() > 0 ==> exists|i: int|
            0 <= i < shares.len() && (#[trigger] shares[i]).entity == entity
}

/// Appends what is left of the stretches.
fn push_clips(out: &mut Vec<(F64, F64)>, spans: &Vec<(F64, F64)>, lo: F64, hi: F64)
    ensures
        final(out)@ == old(out)@ + clips_of(spans@, lo, hi, spans@.len() as int),
{
    let ghost before = out@;
    let mut n: usize = 0;
    assert(before + Seq::<(F64, F64)>::empty() =~= before);
    while n < spans.len()
        invariant
            n <= spans.len(),
            out@ == before + clips_of(spans@, lo, hi, n as int),
        decreases spans.len() - n,
    {
        let a: F64 = spans[n].0.max(lo);
        let b: F64 = spans[n].1.min(hi);
        if a.lt(b) {
            out.push((a, b));
        }
        assert(out@ =~= before + clips_of(spans@, lo, hi, n + 1));
        n = n + 1;
    }
}

/// The volume's clipped presence, how many samples met it, and its factor.
fn gather(
    walks: &Vec<RayWalk>,
    touches: &Vec<Touch>,
    entity: Entity,
    Ghost(corridor): Ghost<DiscCorridor>,
) -> (gathered: (Vec<(F64, F64)>, usize, Option<F32>))
    requires
        extent::touches_fit(touches@, corridor, walks@),
    ensures
        gathered.0@ == entity_clips(walks@, touches@, entity, touches@.len() as int),
        gathered.1 == samples_met(walks@, touches@, entity, touches@.len() as int),
        gathered.2 == entity_factor(walks@, touches@, entity, touches@.len() as int),
        gathered.0@.len() > 0 ==> gathered.2 is Some,
        gathered.1 <= touches@.len(),
{
    let mut spans: Vec<(F64, F64)> = Vec::new();
    let mut met: usize = 0;
    let mut factor: Option<F32> = None;
    let mut i: usize = 0;
    while i < touches.len()
        invariant
            i <= touches.len(),
            extent::touches_fit(touches@, corridor, walks@),
            spans@ == entity_clips(walks@, touches@, entity, i as int),
            met == samples_met(walks@, touches@, entity, i as int),
            met <= i,
            factor == entity_factor(walks@, touches@, entity, i as int),
            spans@.len() > 0 ==> factor is Some,
        decreases touches.len() - i,
    {
        let touch: &Touch = &touches[i];
        let count: usize = touch.runs.len();
        assert(touches@[i as int].runs@[0] < walks@[touch.sample as int].runs@.len());
        assert(touches@[i as int].runs@[count - 1] < walks@[touch.sample as int].runs@.len());
        let walk: &RayWalk = &walks[touch.sample];
        let lo: F64 = walk.runs[touch.runs[0]].start;
        let hi: F64 = walk.runs[touch.runs[count - 1]].end;
        let ghost before = spans@;
        let had: usize = spans.len();
        let mut own: Option<F32> = None;
        let mut n: usize = 0;
        assert(before + Seq::<(F64, F64)>::empty() =~= before);
        while n < walk.presence.len()
            invariant
                n <= walk.presence@.len(),
                had == before.len(),
                spans@ == before + sample_clips(walk.presence@, entity, lo, hi, n as int),
                own == sample_factor(walk.presence@, entity, lo, hi, n as int),
                sample_clips(walk.presence@, entity, lo, hi, n as int).len() > 0 ==> own is Some,
            decreases walk.presence.len() - n,
        {
            if walk.presence[n].entity == entity {
                let ghost now = spans@;
                let so_far: usize = spans.len();
                push_clips(&mut spans, &walk.presence[n].spans, lo, hi);
                if own.is_none() && spans.len() > so_far {
                    own = Some(walk.presence[n].factor);
                }
                assert(spans@ =~= before + sample_clips(walk.presence@, entity, lo, hi, n + 1));
            }
            n = n + 1;
        }
        if spans.len() > had {
            met = met + 1;
        }
        if factor.is_none() {
            factor = own;
        }
        i = i + 1;
    }
    (spans, met, factor)
}

/// The volumes among which the crossing's shares lie: everything the covered samples met.
fn candidates(
    walks: &Vec<RayWalk>,
    touches: &Vec<Touch>,
    Ghost(corridor): Ghost<DiscCorridor>,
) -> (entities: Vec<Entity>)
    requires
        extent::touches_fit(touches@, corridor, walks@),
    ensures
        forall|i: int, j: int| 0 <= i < j < entities@.len() ==> (#[trigger] entities@[i]).id < (#[trigger] entities@[j]).id,
        forall|entity: Entity|
            (#[trigger] entity_clips(walks@, touches@, entity, touches@.len() as int)).len() > 0 ==> entities@.contains(
                entity,
            ),
{
    let mut entities: Vec<Entity> = Vec::new();
    let mut i: usize = 0;
    while i < touches.len()
        invariant
            i <= touches.len(),
            extent::touches_fit(touches@, corridor, walks@),
            forall|a: int, b: int|
                0 <= a < b < entities@.len() ==> (#[trigger] entities@[a]).id < (#[trigger] entities@[b]).id,
            forall|t: int, n: int|
                0 <= t < i && 0 <= n < walks@[touches@[t].sample as int].presence@.len() ==> entities@.contains(
                    (#[trigger] walks@[touches@[t].sample as int].presence@[n]).entity,
                ),
        decreases touches.len() - i,
    {
        assert(touches@[i as int].sample < walks@.len());
        let walk: &RayWalk = &walks[touches[i].sample];
        let mut n: usize = 0;
        let ghost seen = entities@;
        while n < walk.presence.len()
            invariant
                n <= walk.presence@.len(),
                forall|a: int, b: int|
                    0 <= a < b < entities@.len() ==> (#[trigger] entities@[a]).id < (#[trigger] entities@[b]).id,
                forall|e: Entity| seen.contains(e) ==> entities@.contains(e),
                forall|m: int| 0 <= m < n ==> entities@.contains((#[trigger] walk.presence@[m]).entity),
            decreases walk.presence.len() - n,
        {
            let ghost before = entities@;
            insert_entity(&mut entities, walk.presence[n].entity);
            assert forall|m: int| 0 <= m < n + 1 implies entities@.contains((#[trigger] walk.presence@[m]).entity) by {
                if m < n {
                    assert(before.contains(walk.presence@[m].entity));
                }
            }
            n = n + 1;
        }
        assert forall|t: int, m: int|
            0 <= t < i + 1 && 0 <= m < walks@[touches@[t].sample as int].presence@.len() implies entities@.contains(
            (#[trigger] walks@[touches@[t].sample as int].presence@[m]).entity,
        ) by {
            if t < i {
                assert(seen.contains(walks@[touches@[t].sample as int].presence@[m].entity));
            }
        }
        i = i + 1;
    }
    proof {
        assert forall|entity: Entity|
            (#[trigger] entity_clips(walks@, touches@, entity, touches@.len() as int)).len()
                > 0 implies entities@.contains(entity) by {
            let (t, n) = lemma_clips_come_from(walks@, touches@, entity, touches@.len() as int);
            assert(entities@.contains(walks@[touches@[t].sample as int].presence@[n].entity));
        }
    }
    entities
}

proof fn lemma_clips_come_from(walks: Seq<RayWalk>, touches: Seq<Touch>, entity: Entity, n: int) -> (at: (int, int))
    requires
        entity_clips(walks, touches, entity, n).len() > 0,
        n <= touches.len(),
    ensures
        0 <= at.0 < n,
        0 <= at.1 < walks[touches[at.0].sample as int].presence@.len(),
        walks[touches[at.0].sample as int].presence@[at.1].entity == entity,
    decreases n,
{
    if entity_clips(walks, touches, entity, n - 1).len() > 0 {
        lemma_clips_come_from(walks, touches, entity, n - 1)
    } else {
        let touch = touches[n - 1];
        let presence = walks[touch.sample as int].presence@;
        let m = lemma_sample_clips_come_from(
            presence,
            entity,
            extent::first_run(walks, touch).start,
            extent::last_run(walks, touch).end,
            presence.len() as int,
        );
        (n - 1, m)
    }
}

proof fn lemma_sample_clips_come_from(presence: Seq<EntityPresence>, entity: Entity, lo: F64, hi: F64, n: int) -> (m: int)
    requires
        sample_clips(presence, entity, lo, hi, n).len() > 0,
        n <= presence.len(),
    ensures
        0 <= m < n,
        presence[m].entity == entity,
    decreases n,
{
    if presence[n - 1].entity == entity {
        n - 1
    } else {
        lemma_sample_clips_come_from(presence, entity, lo, hi, n - 1)
    }
}

/// Adds an entity to an ordered list, if it is not there.
pub fn insert_entity(entities: &mut Vec<Entity>, entity: Entity)
    requires
        forall|a: int, b: int|
            0 <= a < b < old(entities)@.len() ==> (#[trigger] old(entities)@[a]).id < (#[trigger] old(entities)@[b]).id,
    ensures
        forall|a: int, b: int|
            0 <= a < b < final(entities)@.len() ==> (#[trigger] final(entities)@[a]).id < (
            #[trigger] final(entities)@[b]).id,
        forall|e: Entity| #[trigger] final(entities)@.contains(e) <==> old(entities)@.contains(e) || e == entity,
{
    let ghost before = entities@;
    let mut place: usize = 0;
    while place < entities.len() && entities[place].id < entity.id
        invariant
            place <= entities.len(),
            entities@ == before,
            forall|i: int| 0 <= i < place ==> (#[trigger] before[i]).id < entity.id,
        decreases entities.len() - place,
    {
        place = place + 1;
    }
    if place < entities.len() && entities[place] == entity {
        assert(before[place as int] == entity);
        return ;
    }
    entities.insert(place, entity);
    proof {
        let after = entities@;
        assert(after =~= before.insert(place as int, entity));
        assert forall|i: int, j: int| 0 <= i < j < after.len() implies (#[trigger] after[i]).id < (#[trigger] after[j]).id by {
            if j == place {
                assert(after[i] == before[i]);
            } else if i == place {
                assert(after[j] == before[j - 1]);
                if j - 1 > place {
                    assert(before[place as int].id < before[j - 1].id);
                }
            } else {
                let x = if i < place { i } else { i - 1 };
                let y = if j < place { j } else { j - 1 };
                assert(after[i] == before[x] && after[j] == before[y]);
            }
        }
        assert forall|e: Entity| #[trigger] after.contains(e) <==> before.contains(e) || e == entity by {
            if before.contains(e) {
                let x = choose|x: int| 0 <= x < before.len() && before[x] == e;
                let y = if x < place { x } else { x + 1 };
                assert(after[y] == e);
            }
            assert(after[place as int] == entity);
            if after.contains(e) && e != entity {
                let y = choose|y: int| 0 <= y < after.len() && after[y] == e;
                let x = if y < place { y } else { y - 1 };
                assert(before[x] == e);
            }
        }
    }
}

/// Builds the shares of a crossing.
pub fn read_shares(
    walks: &Vec<RayWalk>,
    touches: &Vec<Touch>,
    k: usize,
    Ghost(corridor): Ghost<DiscCorridor>,
) -> (shares: Vec<EntityShare>)
    requires
        extent::touches_fit(touches@, corridor, walks@),
    ensures
        are_shares(shares@, walks@, touches@, k as nat),
{
    let entities: Vec<Entity> = candidates(walks, touches, Ghost(corridor));
    let kf: F64 = F64::from_whole(k as u64);
    let mut shares: Vec<EntityShare> = Vec::new();
    let mut next: usize = 0;
    while next < entities.len()
        invariant
            next <= entities.len(),
            extent::touches_fit(touches@, corridor, walks@),
            kf == F64::whole(k as nat),
            forall|i: int, j: int|
                0 <= i < j < entities@.len() ==> (#[trigger] entities@[i]).id < (#[trigger] entities@[j]).id,
            forall|i: int, j: int|
                0 <= i < j < shares@.len() ==> (#[trigger] shares@[i]).entity.id < (#[trigger] shares@[j]).entity.id,
            forall|i: int| 0 <= i < shares@.len() ==> is_share(#[trigger] shares@[i], walks@, touches@, k as nat),
            next < entities@.len() ==> forall|i: int|
                0 <= i < shares@.len() ==> (#[trigger] shares@[i]).entity.id < entities@[next as int].id,
            forall|e: int|
                0 <= e < next && entity_clips(walks@, touches@, #[trigger] entities@[e], touches@.len() as int).len() > 0
                    ==> exists|i: int| 0 <= i < shares@.len() && (#[trigger] shares@[i]).entity == entities@[e],
        decreases entities.len() - next,
    {
        let entity: Entity = entities[next];
        let (spans, met, factor) = gather(walks, touches, entity, Ghost(corridor));
        let ghost before = shares@;
        match factor {
            Some(factor) => {
                if spans.len() > 0 {
                    let mut length: F64 = F64::zero();
                    let mut n: usize = 0;
                    while n < spans.len()
                        invariant
                            n <= spans.len(),
                            length == length_of(spans@, n as int),
                        decreases spans.len() - n,
                    {
                        length = length.plus(spans[n].1.minus(spans[n].0));
                        n = n + 1;
                    }
                    let chord: F64 = length.over(kf);
                    shares.push(
                        EntityShare {
                            entity,
                            factor,
                            chord: chord.to_single(),
                            cost: chord.times(factor.to_double()).to_single(),
                            coverage: F64::from_whole(met as u64).over(kf).to_single(),
                            spans,
                        },
                    );
                    assert(shares@[before.len() as int].entity == entity);
                }
            },
            None => {},
        }
        proof {
            if next + 1 < entities@.len() {
                assert(entities@[next as int].id < entities@[next + 1].id);
            }
            assert forall|e: int|
                0 <= e < next + 1 && entity_clips(
                    walks@,
                    touches@,
                    #[trigger] entities@[e],
                    touches@.len() as int,
                ).len() > 0 implies exists|i: int| 0 <= i < shares@.len() && (#[trigger] shares@[i]).entity == entities@[e] by {
                if e < next {
                    let i = choose|i: int| 0 <= i < before.len() && (#[trigger] before[i]).entity == entities@[e];
                    assert(shares@[i].entity == entities@[e]);
                }
            }
        }
        next = next + 1;
    }
    proof {
        assert forall|entity: Entity|
            (#[trigger] entity_clips(walks@, touches@, entity, touches@.len() as int)).len() > 0 implies exists|i: int|
            0 <= i < shares@.len() && (#[trigger] shares@[i]).entity == entity by {
            assert(entities@.contains(entity));
            let e = choose|e: int| 0 <= e < entities@.len() && entities@[e] == entity;
            assert(entity_clips(walks@, touches@, entities@[e], touches@.len() as int).len() > 0);
        }
    }
    shares
}

} // verus!
