//! One crossing of the union field, from first contact to its consequences.
//!
//! The world is asked twice: for what lies along the incoming axis, and, where the
//! round bites in, along the bent one. What is asked for is a [`CorridorRequest`], and
//! [`closing_walk`] takes the answer: it collects the corridor, walks it, and says whether
//! it reached far enough or must be asked for again, longer. A missing exit is never made
//! up. [`resolve_entrance`] decides the entrance, [`stage::finish`] plans the
//! transit and [`perforate_or_embed`] spends the plan; what must happen in the world is
//! handed back as [`Effects`].

pub mod momentum;
pub mod wounds;

use crate::ballistics::collect;
use crate::ballistics::collect::{march_eps, Candidate, Corridor, Gathered};
use crate::ballistics::sanctioned::{CombatantId, ShotId};
use crate::ballistics::walk::disc;
use crate::ballistics::walk::disc::{
    disc_offsets, DiscCorridor, DiscFrame, DiscSpall, DiscWalk, SampleCorridor, SampleSeed,
};
use crate::ballistics::walk::disc_walk;
use crate::ballistics::walk::disc_walk::walk_disc;
use crate::ballistics::walk::events;
use crate::ballistics::walk::events::position_at;
use crate::ballistics::walk::stage;
use crate::ballistics::walk::stage::{
    begin, Begin, EntityDeposit, EntranceRead, Outcome, ResolutionPlan, Shot, TransitRequest, Turn,
};
use crate::ballistics::walk::table;
use crate::ballistics::walk::table::VolumeTable;
use crate::ballistics::walk::vocabulary::{Entity, FaceHit, ShellKey, WalkError, WalkLaws};
use crate::float::F32;
use crate::vector::Vec3;
use vstd::prelude::*;

verus! {

/// How far (m) past first contact the first corridor reaches.
#[verifier::allow_in_spec]
pub fn entrance_span() -> F32
    returns
        (F32 { bits: 0x3f00_0000 }),
{
    F32 { bits: 0x3f00_0000 }
}

/// The longest corridor (m). What has not closed by then is no crossing.
#[verifier::allow_in_spec]
pub fn max_corridor() -> F32
    returns
        (F32 { bits: 0x4248_0000 }),
{
    F32 { bits: 0x4248_0000 }
}

/// Under this calibre (m) the disc is its axis alone.
#[verifier::allow_in_spec]
pub fn disc_min_caliber() -> F32
    returns
        (F32 { bits: 0x3ca3_d70a }),
{
    F32 { bits: 0x3ca3_d70a }
}

/// Damage per unit of the cost that a volume took.
#[verifier::allow_in_spec]
pub fn transit_k() -> F32
    returns
        (F32 { bits: 0x3f80_0000 }),
{
    F32 { bits: 0x3f80_0000 }
}

/// The share of the impact that a square bounce jars into a component.
#[verifier::allow_in_spec]
pub fn shock_k() -> F32
    returns
        (F32 { bits: 0x3d38_51ec }),
{
    F32 { bits: 0x3d38_51ec }
}

/// The disc's radius for a calibre.
pub open spec fn radius_of(caliber: F32) -> F32 {
    if disc_min_caliber().at_most(caliber) {
        caliber.product(F32 { bits: 0x3f00_0000 })
    } else {
        F32::zero()
    }
}

pub fn disc_radius(caliber: F32) -> (radius: F32)
    ensures
        radius == radius_of(caliber),
{
    if disc_min_caliber().le(caliber) {
        caliber.times(F32 { bits: 0x3f00_0000 })
    } else {
        F32::zero()
    }
}

/// What to collect next.
#[derive(Clone, Debug, PartialEq)]
pub struct CorridorRequest {
    pub anchor: Vec3,
    /// The start, relative to the anchor.
    pub origin: Vec3,
    pub axis: Vec3,
    pub frame: DiscFrame,
    pub radius: F32,
    /// What each sample is already inside; empty in open air.
    pub seeds: Vec<SampleSeed>,
    pub length: F32,
}

/// The length that a corridor starts with.
pub open spec fn opening(initial: F32) -> F32 {
    if initial.below(entrance_span()) {
        entrance_span()
    } else if max_corridor().below(initial) {
        max_corridor()
    } else {
        initial
    }
}

fn opening_length(initial: F32) -> (length: F32)
    ensures
        length == opening(initial),
{
    if initial.lt(entrance_span()) {
        entrance_span()
    } else if max_corridor().lt(initial) {
        max_corridor()
    } else {
        initial
    }
}

/// The first corridor of a contact, the disc laid along the way in. `contact` is the
/// distance to the nearest sample's first armour.
pub fn entrance_request(
    origin: Vec3,
    dir: Vec3,
    frame: DiscFrame,
    caliber: F32,
    contact: F32,
    seeds: Vec<SampleSeed>,
) -> (request: CorridorRequest)
    ensures
        request == (CorridorRequest {
            anchor: origin,
            origin: Vec3::zero(),
            axis: dir,
            frame,
            radius: radius_of(caliber),
            seeds,
            length: opening(contact.sum(entrance_span())),
        }),
{
    CorridorRequest {
        anchor: origin,
        origin: Vec3::zero(),
        axis: dir,
        frame,
        radius: disc_radius(caliber),
        seeds,
        length: opening_length(contact.plus(entrance_span())),
    }
}

/// What a corridor's walk asks of the one who collects.
#[derive(Clone, Debug, PartialEq)]
pub enum Closing {
    /// The corridor is too short: collect it again, this long.
    Extend(F32),
    /// The first crossing closed, or the corridor cannot be any longer.
    Closed(DiscWalk),
    Failed(WalkError),
}

/// The first crossing ends far enough inside that no weld can reach past the corridor.
pub open spec fn is_settled(walked: DiscWalk, length: F32, laws: WalkLaws) -> bool {
    walked.events@.len() == 0 || walked.events@[0].end.sum(laws.weld_max_lookahead.doubled()).at_most(length.doubled())
}

/// The next length to try.
pub open spec fn extended(length: F32) -> F32 {
    length.product(F32 { bits: 0x4000_0000 }).smaller(max_corridor())
}

/// Whether a walked corridor closed its first crossing. It is extended where it did
/// not settle or ran out inside material, up to the ceiling; there the walk stands as
/// it is, and an open end is an error like any other.
pub open spec fn closed(length: F32, walked: Result<DiscWalk, WalkError>, laws: WalkLaws) -> Closing {
    match walked {
        Ok(walk) => if is_settled(walk, length, laws) || max_corridor().at_most(length) {
            Closing::Closed(walk)
        } else {
            Closing::Extend(extended(length))
        },
        Err(error) => if error is IncompleteCorridor && length.below(max_corridor()) {
            Closing::Extend(extended(length))
        } else {
            Closing::Failed(error)
        },
    }
}

/// Decides whether a walked corridor is to be extended.
pub fn close(length: F32, walked: Result<DiscWalk, WalkError>, laws: &WalkLaws) -> (closing: Closing)
    ensures
        closing == closed(length, walked, *laws),
{
    let longer: F32 = length.times(F32 { bits: 0x4000_0000 }).min(max_corridor());
    match walked {
        Ok(walk) => {
            let settled: bool = if walk.events.len() == 0 {
                true
            } else {
                walk.events[0].end.plus(laws.weld_max_lookahead.to_double()).le(length.to_double())
            };
            if settled || max_corridor().le(length) {
                Closing::Closed(walk)
            } else {
                Closing::Extend(longer)
            }
        },
        Err(WalkError::IncompleteCorridor { sample, open, length: at }) => if length.lt(max_corridor()) {
            Closing::Extend(longer)
        } else {
            Closing::Failed(WalkError::IncompleteCorridor { sample, open, length: at })
        },
        Err(error) => Closing::Failed(error),
    }
}

/// An extension is longer, and never longer than the ceiling: asking again ends.
pub proof fn law_extension_grows(length: F32)
    requires
        F32::zero().below(length),
        length.below(max_corridor()),
    ensures
        length.below(extended(length)),
        extended(length).at_most(max_corridor()),
{
    F32::zero().lemma_nonnegative();
    length.lemma_nonnegative();
    if !length.finite() {
        length.lemma_infinite(max_corridor());
    }
    length.lemma_twice();
}

/// A corridor opens with at least the entrance's span and at most the ceiling, for
/// any length that is a number.
pub proof fn law_opening_is_clamped(initial: F32)
    requires
        !initial.is_nan(),
    ensures
        entrance_span().at_most(opening(initial)),
        opening(initial).at_most(max_corridor()),
{
    entrance_span().lemma_order_of_bits(max_corridor());
}

/// The offset of each sample: the seeds' own where there are any, else the disc laid
/// out on its frame, or the axis alone.
pub open spec fn offset_of(request: CorridorRequest, turns: Seq<(F32, F32)>, i: int) -> Vec3 {
    if request.seeds@.len() > 0 {
        request.seeds@[i].offset
    } else if i == 0 {
        Vec3::zero()
    } else {
        disc::ring_offset(request.frame, request.radius, turns[i - 1])
    }
}

/// How many samples a corridor has.
pub open spec fn sample_count(request: CorridorRequest, turns: Seq<(F32, F32)>) -> nat {
    if request.seeds@.len() > 0 {
        request.seeds@.len()
    } else if F32::zero().below(request.radius) {
        turns.len() + 1
    } else {
        1
    }
}

/// The sample rays to collect along, the ring's angles given by cosine and sine.
pub fn sample_offsets(request: &CorridorRequest, turns: &Vec<(F32, F32)>) -> (offsets: Vec<Vec3>)
    ensures
        offsets@.len() == sample_count(*request, turns@),
        forall|i: int| 0 <= i < offsets@.len() ==> #[trigger] offsets@[i] == offset_of(*request, turns@, i),
{
    if request.seeds.len() == 0 {
        if F32::zero().lt(request.radius) {
            let offsets: Vec<Vec3> = disc_offsets(&request.frame, request.radius, turns);
            assert forall|i: int| 0 <= i < offsets@.len() implies #[trigger] offsets@[i] == offset_of(
                *request,
                turns@,
                i,
            ) by {
                if i > 0 {
                    assert(offsets@[(i - 1) + 1] == disc::ring_offset(request.frame, request.radius, turns@[i - 1]));
                }
            }
            offsets
        } else {
            let mut offsets: Vec<Vec3> = Vec::new();
            offsets.push(Vec3::zero());
            offsets
        }
    } else {
        let mut offsets: Vec<Vec3> = Vec::new();
        let mut i: usize = 0;
        while i < request.seeds.len()
            invariant
                i <= request.seeds@.len(),
                request.seeds@.len() > 0,
                offsets@.len() == i,
                forall|j: int| 0 <= j < i ==> #[trigger] offsets@[j] == offset_of(*request, turns@, j),
            decreases request.seeds.len() - i,
        {
            offsets.push(request.seeds[i].offset);
            i = i + 1;
        }
        offsets
    }
}

/// What a sample starts inside.
pub open spec fn seeded_at(request: CorridorRequest, i: int) -> Seq<ShellKey> {
    if i < request.seeds@.len() {
        request.seeds@[i].inside@
    } else {
        Seq::empty()
    }
}

/// What a corridor collects along one sample ray.
pub open spec fn gathered_at(
    request: CorridorRequest,
    offset: Vec3,
    seeded: &Vec<ShellKey>,
    laws: &WalkLaws,
    candidates: Seq<Candidate>,
) -> Gathered {
    collect::over_candidates(
        Seq::empty(),
        (Corridor {
            anchor: request.anchor,
            origin: request.origin.sum(offset),
            axis: request.axis,
            length: request.length,
            seeded,
            laws,
        }),
        candidates,
        candidates.len() as int,
    )
}

/// One collected sample.
pub open spec fn is_sample(
    sample: SampleCorridor,
    request: CorridorRequest,
    offset: Vec3,
    seeded: Seq<ShellKey>,
    laws: WalkLaws,
    candidates: Seq<Candidate>,
) -> bool {
    &&& sample.offset == offset
    &&& sample.initial_presence@ == seeded
    &&& gathered_at(request, offset, &sample.initial_presence, &laws, candidates).fault is None
    &&& sample.hits@ == gathered_at(request, offset, &sample.initial_presence, &laws, candidates).hits
}

/// What the world answered for each sample.
pub open spec fn listed(answers: Seq<Vec<Candidate>>) -> Seq<Seq<Candidate>> {
    Seq::new(answers.len(), |i: int| answers[i]@)
}

/// What a request makes of the world's answers: every sample collected, or the error
/// of the first that cannot be.
pub open spec fn is_corridor(
    result: Result<DiscCorridor, WalkError>,
    request: CorridorRequest,
    turns: Seq<(F32, F32)>,
    answers: Seq<Seq<Candidate>>,
    laws: WalkLaws,
) -> bool {
    match result {
        Ok(corridor) => {
            &&& corridor.anchor == request.anchor
            &&& corridor.origin == request.origin
            &&& corridor.axis == request.axis
            &&& corridor.length == request.length
            &&& corridor.radius == request.radius
            &&& corridor.frame == request.frame
            &&& corridor.samples@.len() == sample_count(request, turns)
            &&& is_started(corridor.samples@, request, turns, laws, answers)
        },
        Err(error) => exists|samples: Seq<SampleCorridor>, seeded: &Vec<ShellKey>| #[trigger]
            is_refused(error, samples, seeded, request, turns, laws, answers),
    }
}

/// Builds the sample corridors from what the world answered for each of them, and
/// collects every crossing along each; the first sample that cannot be collected fails
/// the whole.
pub fn build_corridor(
    request: &CorridorRequest,
    turns: &Vec<(F32, F32)>,
    answers: &Vec<Vec<Candidate>>,
    laws: &WalkLaws,
) -> (result: Result<DiscCorridor, WalkError>)
    requires
        answers@.len() == sample_count(*request, turns@),
        forall|i: int, j: int| 0 <= i < answers@.len() && 0 <= j < answers@[i]@.len() ==> (#[trigger] answers@[i]@[j]).wf(),
    ensures
        is_corridor(result, *request, turns@, listed(answers@), *laws),
{
    let offsets: Vec<Vec3> = sample_offsets(request, turns);
    let mut samples: Vec<SampleCorridor> = Vec::new();
    let mut index: usize = 0;
    while index < offsets.len()
        invariant
            index <= offsets@.len(),
            offsets@.len() == sample_count(*request, turns@),
            offsets@.len() == answers@.len(),
            forall|i: int| 0 <= i < offsets@.len() ==> #[trigger] offsets@[i] == offset_of(*request, turns@, i),
            forall|i: int, j: int|
                0 <= i < answers@.len() && 0 <= j < answers@[i]@.len() ==> (#[trigger] answers@[i]@[j]).wf(),
            samples@.len() == index,
            is_started(samples@, *request, turns@, *laws, listed(answers@)),
        decreases offsets.len() - index,
    {
        let offset: Vec3 = offsets[index];
        let seeded: Vec<ShellKey> = read_seeds(request, index);
        let mut hits: Vec<FaceHit> = Vec::new();
        let corridor: Corridor = Corridor {
            anchor: request.anchor,
            origin: request.origin.plus(offset),
            axis: request.axis,
            length: request.length,
            seeded: &seeded,
            laws,
        };
        match collect::collect(&corridor, &answers[index], &mut hits) {
            Ok(_) => {},
            Err(error) => {
                proof {
                    assert(is_refused(error, samples@, &seeded, *request, turns@, *laws, listed(answers@)));
                }
                return Err(error);
            },
        }
        let ghost before = samples@;
        samples.push(SampleCorridor { offset, initial_presence: seeded, hits });
        proof {
            assert forall|i: int| 0 <= i < samples@.len() implies is_sample(
                #[trigger] samples@[i],
                *request,
                offset_of(*request, turns@, i),
                seeded_at(*request, i),
                *laws,
                listed(answers@)[i],
            ) by {
                if i < index {
                    assert(samples@[i] == before[i]);
                }
            }
        }
        index = index + 1;
    }
    Ok(
        DiscCorridor {
            anchor: request.anchor,
            origin: request.origin,
            axis: request.axis,
            length: request.length,
            radius: request.radius,
            frame: request.frame,
            samples,
        },
    )
}

/// The first samples of a corridor, all collected.
pub open spec fn is_started(
    samples: Seq<SampleCorridor>,
    request: CorridorRequest,
    turns: Seq<(F32, F32)>,
    laws: WalkLaws,
    answers: Seq<Seq<Candidate>>,
) -> bool {
    forall|i: int|
        0 <= i < samples.len() ==> is_sample(
            #[trigger] samples[i],
            request,
            offset_of(request, turns, i),
            seeded_at(request, i),
            laws,
            answers[i],
        )
}

/// The samples before the refused one are collected, and the error tells what stopped
/// that one.
pub open spec fn is_refused(
    error: WalkError,
    samples: Seq<SampleCorridor>,
    seeded: &Vec<ShellKey>,
    request: CorridorRequest,
    turns: Seq<(F32, F32)>,
    laws: WalkLaws,
    answers: Seq<Seq<Candidate>>,
) -> bool {
    let i = samples.len() as int;
    &&& i < answers.len()
    &&& is_started(samples, request, turns, laws, answers)
    &&& seeded@ == seeded_at(request, i)
    &&& gathered_at(request, offset_of(request, turns, i), seeded, &laws, answers[i]).fault matches Some((volume, fault))
        && collect::tells(error, volume, fault)
}

fn read_seeds(request: &CorridorRequest, index: usize) -> (seeded: Vec<ShellKey>)
    ensures
        seeded@ == seeded_at(*request, index as int),
{
    let mut seeded: Vec<ShellKey> = Vec::new();
    if index < request.seeds.len() {
        let inside: &Vec<ShellKey> = &request.seeds[index].inside;
        let mut i: usize = 0;
        while i < inside.len()
            invariant
                i <= inside@.len(),
                seeded@ == inside@.take(i as int),
            decreases inside.len() - i,
        {
            seeded.push(inside[i]);
            assert(seeded@ =~= inside@.take(i + 1));
            i = i + 1;
        }
        assert(inside@.take(i as int) =~= inside@);
    }
    seeded
}

/// The volumes that a sample names: those of its hits, then those it starts inside.
pub open spec fn mentions(sample: SampleCorridor) -> Seq<Entity> {
    sample.hits@.map_values(|hit: FaceHit| hit.volume) + sample.initial_presence@.map_values(|key: ShellKey| key.volume)
}

/// The volumes that the first `n` samples name, in order.
pub open spec fn mentions_upto(samples: Seq<SampleCorridor>, n: int) -> Seq<Entity>
    decreases n,
{
    if n <= 0 {
        Seq::empty()
    } else {
        mentions_upto(samples, n - 1) + mentions(samples[n - 1])
    }
}

/// The factor that the world gives a volume, from row `i` on.
pub open spec fn factor_from(factors: Seq<(Entity, F32)>, volume: Entity, i: int) -> Option<F32>
    decreases factors.len() - i,
{
    if i < 0 || i >= factors.len() {
        None
    } else if factors[i].0 == volume {
        Some(factors[i].1)
    } else {
        factor_from(factors, volume, i + 1)
    }
}

/// Some entry is for the volume.
pub open spec fn has_entry(entries: Seq<(Entity, F32)>, volume: Entity) -> bool {
    exists|i: int| 0 <= i < entries.len() && (#[trigger] entries[i]).0 == volume
}

proof fn lemma_the_first_row_gives_the_factor(factors: Seq<(Entity, F32)>, volume: Entity, from: int)
    requires
        0 <= from,
    ensures
        match factor_from(factors, volume, from) {
            Some(factor) => exists|i: int|
                {
                    &&& from <= i < factors.len()
                    &&& (#[trigger] factors[i]).0 == volume
                    &&& factors[i].1 == factor
                    &&& forall|j: int| from <= j < i ==> !((#[trigger] factors[j]).0 == volume)
                },
            None => forall|j: int| from <= j < factors.len() ==> !((#[trigger] factors[j]).0 == volume),
        },
    decreases factors.len() - from,
{
    if from < factors.len() && !(factors[from].0 == volume) {
        lemma_the_first_row_gives_the_factor(factors, volume, from + 1);
    } else if from < factors.len() {
        assert(factors[from].0 == volume);
    }
}

/// A volume has the factor that its first row says, and is unknown exactly where no row names it.
pub proof fn law_the_first_row_gives_the_factor(factors: Seq<(Entity, F32)>, volume: Entity)
    ensures
        match factor_from(factors, volume, 0) {
            Some(factor) => exists|i: int|
                {
                    &&& 0 <= i < factors.len()
                    &&& (#[trigger] factors[i]).0 == volume
                    &&& factors[i].1 == factor
                    &&& forall|j: int| 0 <= j < i ==> !((#[trigger] factors[j]).0 == volume)
                },
            None => forall|j: int| 0 <= j < factors.len() ==> !((#[trigger] factors[j]).0 == volume),
        },
{
    lemma_the_first_row_gives_the_factor(factors, volume, 0);
}

/// The entries once a further volume is named, or the volume that the world does not know.
pub open spec fn with_mention(
    entries: Result<Seq<(Entity, F32)>, Entity>,
    factors: Seq<(Entity, F32)>,
    volume: Entity,
) -> Result<Seq<(Entity, F32)>, Entity> {
    match entries {
        Err(unknown) => Err(unknown),
        Ok(entries) => if has_entry(entries, volume) {
            Ok(entries)
        } else {
            match factor_from(factors, volume, 0) {
                Some(factor) => Ok(entries.push((volume, factor))),
                None => Err(volume),
            }
        },
    }
}

/// One entry for each volume named among the first `n`, in the order of first mention.
pub open spec fn entries_of(named: Seq<Entity>, factors: Seq<(Entity, F32)>, n: int) -> Result<
    Seq<(Entity, F32)>,
    Entity,
>
    decreases n,
{
    if n <= 0 {
        Ok(Seq::empty())
    } else {
        with_mention(entries_of(named, factors, n - 1), factors, named[n - 1])
    }
}

/// Every volume named has one entry, with the factor that the world gives it, and no other volume has;
/// or one was named that the world does not know.
pub proof fn law_every_named_volume_is_entered(named: Seq<Entity>, factors: Seq<(Entity, F32)>, n: int)
    requires
        0 <= n <= named.len(),
    ensures
        match entries_of(named, factors, n) {
            Ok(entries) => {
                &&& forall|i: int, j: int|
                    0 <= i < j < entries.len() ==> (#[trigger] entries[i]).0 != (#[trigger] entries[j]).0
                &&& forall|k: int|
                    0 <= k < n ==> exists|e: int| 0 <= e < entries.len() && (#[trigger] entries[e]).0 == #[trigger] named[k]
                &&& forall|e: int|
                    0 <= e < entries.len() ==> factor_from(factors, (#[trigger] entries[e]).0, 0) == Some(entries[e].1)
                &&& forall|e: int|
                    0 <= e < entries.len() ==> exists|k: int|
                        0 <= k < n && #[trigger] named[k] == (#[trigger] entries[e]).0
            },
            Err(unknown) => {
                &&& exists|k: int| 0 <= k < n && #[trigger] named[k] == unknown
                &&& forall|j: int| 0 <= j < factors.len() ==> (#[trigger] factors[j]).0 != unknown
            },
        },
    decreases n,
{
    if n > 0 {
        law_every_named_volume_is_entered(named, factors, n - 1);
        let volume = named[n - 1];
        law_the_first_row_gives_the_factor(factors, volume);
        if let Ok(before) = entries_of(named, factors, n - 1) {
            if !has_entry(before, volume) {
                if let Some(factor) = factor_from(factors, volume, 0) {
                    let entries = before.push((volume, factor));
                    assert(entries[before.len() as int].0 == volume);
                    assert forall|i: int, j: int| 0 <= i < j < entries.len() implies (#[trigger] entries[i]).0 != (
                    #[trigger] entries[j]).0 by {
                        assert(before[i] == entries[i]);
                    }
                    assert forall|k: int| 0 <= k < n implies exists|e: int|
                        0 <= e < entries.len() && (#[trigger] entries[e]).0 == #[trigger] named[k] by {
                        if k < n - 1 {
                            let e = choose|e: int| 0 <= e < before.len() && (#[trigger] before[e]).0 == named[k];
                            assert(entries[e] == before[e]);
                        }
                    }
                    assert forall|e: int| 0 <= e < entries.len() implies exists|k: int|
                        0 <= k < n && #[trigger] named[k] == (#[trigger] entries[e]).0 by {
                        if e < before.len() {
                            assert(entries[e] == before[e]);
                        } else {
                            assert(named[n - 1] == entries[e].0);
                        }
                    }
                }
            }
        }
    }
}

proof fn lemma_unknown_stays(named: Seq<Entity>, factors: Seq<(Entity, F32)>, n: int, end: int)
    requires
        n <= end,
        entries_of(named, factors, n) is Err,
    ensures
        entries_of(named, factors, end) == entries_of(named, factors, n),
    decreases end - n,
{
    if n < end {
        lemma_unknown_stays(named, factors, n, end - 1);
    }
}

fn mention(volume: Entity, factors: &Vec<(Entity, F32)>, entries: &mut Vec<(Entity, F32)>) -> (known: bool)
    ensures
        with_mention(Ok(old(entries)@), factors@, volume) == if known {
            Ok::<Seq<(Entity, F32)>, Entity>(final(entries)@)
        } else {
            Err(volume)
        },
{
    let mut i: usize = 0;
    while i < entries.len()
        invariant
            i <= entries@.len(),
            entries@ == old(entries)@,
            forall|j: int| 0 <= j < i ==> (#[trigger] entries@[j]).0 != volume,
        decreases entries.len() - i,
    {
        if entries[i].0 == volume {
            assert(entries@[i as int].0 == volume);
            return true;
        }
        i = i + 1;
    }
    let mut k: usize = 0;
    while k < factors.len()
        invariant
            k <= factors@.len(),
            entries@ == old(entries)@,
            !has_entry(entries@, volume),
            factor_from(factors@, volume, 0) == factor_from(factors@, volume, k as int),
        decreases factors.len() - k,
    {
        if factors[k].0 == volume {
            entries.push((volume, factors[k].1));
            return true;
        }
        k = k + 1;
    }
    false
}

/// The table of a corridor's volumes: an entry for each that is named, or the error of the
/// first that the world does not know.
pub open spec fn is_known(
    result: Result<VolumeTable, WalkError>,
    corridor: DiscCorridor,
    factors: Seq<(Entity, F32)>,
) -> bool {
    let named = mentions_upto(corridor.samples@, corridor.samples@.len() as int);
    match entries_of(named, factors, named.len() as int) {
        Err(volume) => result == Err::<VolumeTable, WalkError>(WalkError::UnknownVolume { volume }),
        Ok(entries) => table::is_table(result, entries),
    }
}

/// The factor of every volume that the corridor met, as the world gives them. A volume
/// that the world does not know is an error, and so is a factor that cannot be summed.
pub fn volume_table(corridor: &DiscCorridor, factors: &Vec<(Entity, F32)>) -> (result: Result<VolumeTable, WalkError>)
    ensures
        is_known(result, *corridor, factors@),
{
    let ghost samples = corridor.samples@;
    let ghost named = mentions_upto(samples, samples.len() as int);
    let mut entries: Vec<(Entity, F32)> = Vec::new();
    let mut n: usize = 0;
    while n < corridor.samples.len()
        invariant
            n <= corridor.samples@.len(),
            samples == corridor.samples@,
            named == mentions_upto(samples, samples.len() as int),
            ({
                let upto = mentions_upto(samples, n as int);
                upto.is_prefix_of(named) && entries_of(named, factors@, upto.len() as int) == Ok::<
                    Seq<(Entity, F32)>,
                    Entity,
                >(entries@)
            }),
        decreases corridor.samples.len() - n,
    {
        let sample: &SampleCorridor = &corridor.samples[n];
        let ghost upto = mentions_upto(samples, n as int);
        let ghost here = mentions(*sample);
        proof {
            lemma_mentions_grow(samples, n + 1, samples.len() as int);
            assert(mentions_upto(samples, n + 1) == upto + here);
        }
        let mut i: usize = 0;
        while i < sample.hits.len()
            invariant
                i <= sample.hits@.len(),
                here == mentions(*sample),
                (upto + here).is_prefix_of(named),
                named == mentions_upto(corridor.samples@, corridor.samples@.len() as int),
                entries_of(named, factors@, (upto.len() + i) as int) == Ok::<Seq<(Entity, F32)>, Entity>(entries@),
            decreases sample.hits.len() - i,
        {
            let volume: Entity = sample.hits[i].volume;
            proof {
                assert(here[i as int] == volume);
                assert((upto + here)[upto.len() + i] == volume);
                assert(named[upto.len() + i] == volume);
            }
            if !mention(volume, factors, &mut entries) {
                proof {
                    lemma_unknown_stays(named, factors@, upto.len() + i + 1, named.len() as int);
                }
                return Err(WalkError::UnknownVolume { volume });
            }
            i = i + 1;
        }
        let mut j: usize = 0;
        while j < sample.initial_presence.len()
            invariant
                j <= sample.initial_presence@.len(),
                here == mentions(*sample),
                (upto + here).is_prefix_of(named),
                named == mentions_upto(corridor.samples@, corridor.samples@.len() as int),
                entries_of(named, factors@, (upto.len() + sample.hits@.len() + j) as int) == Ok::<
                    Seq<(Entity, F32)>,
                    Entity,
                >(entries@),
            decreases sample.initial_presence.len() - j,
        {
            let volume: Entity = sample.initial_presence[j].volume;
            proof {
                assert(here[sample.hits@.len() + j] == volume);
                assert((upto + here)[upto.len() + sample.hits@.len() + j] == volume);
                assert(named[upto.len() + sample.hits@.len() + j] == volume);
            }
            if !mention(volume, factors, &mut entries) {
                proof {
                    lemma_unknown_stays(
                        named,
                        factors@,
                        upto.len() + sample.hits@.len() + j + 1,
                        named.len() as int,
                    );
                }
                return Err(WalkError::UnknownVolume { volume });
            }
            j = j + 1;
        }
        n = n + 1;
    }
    VolumeTable::new(entries)
}

/// What became of a request that the world answered: an error of the collector or of the
/// table stands at once; else the corridor is walked, and closes or does not.
pub open spec fn is_closing(
    closing: Closing,
    request: CorridorRequest,
    turns: Seq<(F32, F32)>,
    answers: Seq<Seq<Candidate>>,
    factors: Seq<(Entity, F32)>,
    laws: WalkLaws,
) -> bool {
    ||| closing matches Closing::Failed(error) && is_corridor(Err(error), request, turns, answers, laws)
    ||| exists|corridor: DiscCorridor| #[trigger]
        is_corridor(Ok(corridor), request, turns, answers, laws) && is_closing_of(
            closing,
            corridor,
            request.length,
            factors,
            laws,
        )
}

/// What became of a corridor that was collected.
pub open spec fn is_closing_of(
    closing: Closing,
    corridor: DiscCorridor,
    length: F32,
    factors: Seq<(Entity, F32)>,
    laws: WalkLaws,
) -> bool {
    ||| closing matches Closing::Failed(error) && is_known(Err(error), corridor, factors)
    ||| exists|volumes: VolumeTable, walked: Result<DiscWalk, WalkError>|
        {
            &&& is_known(Ok(volumes), corridor, factors)
            &&& #[trigger] disc_walk::is_walked(walked, corridor, laws, volumes)
            &&& closing == closed(length, walked, laws)
        }
}

/// Walks what the world answered to a request, and says whether the first crossing closed;
/// where it did not, the request is asked again at the length that is told.
pub fn closing_walk(
    request: &CorridorRequest,
    turns: &Vec<(F32, F32)>,
    answers: &Vec<Vec<Candidate>>,
    factors: &Vec<(Entity, F32)>,
    laws: &WalkLaws,
) -> (closing: Closing)
    requires
        answers@.len() == sample_count(*request, turns@),
        forall|i: int, j: int| 0 <= i < answers@.len() && 0 <= j < answers@[i]@.len() ==> (#[trigger] answers@[i]@[j]).wf(),
    ensures
        is_closing(closing, *request, turns@, listed(answers@), factors@, *laws),
        closing matches Closing::Closed(walk) ==> walk.wf(),
{
    let corridor: DiscCorridor = match build_corridor(request, turns, answers, laws) {
        Ok(corridor) => corridor,
        Err(error) => {
            return Closing::Failed(error);
        },
    };
    assert(is_corridor(Ok(corridor), *request, turns@, listed(answers@), *laws));
    let volumes: VolumeTable = match volume_table(&corridor, factors) {
        Ok(volumes) => volumes,
        Err(error) => {
            return Closing::Failed(error);
        },
    };
    let walked: Result<DiscWalk, WalkError> = walk_disc(&corridor, &volumes, laws);
    let ghost outcome = walked;
    assert(disc_walk::is_walked(outcome, corridor, *laws, volumes));
    close(request.length, walked, laws)
}

proof fn lemma_mentions_grow(samples: Seq<SampleCorridor>, n: int, end: int)
    requires
        0 <= n <= end <= samples.len(),
    ensures
        mentions_upto(samples, n).is_prefix_of(mentions_upto(samples, end)),
    decreases end - n,
{
    if n < end {
        lemma_mentions_grow(samples, n, end - 1);
    }
}

/// The round, as far as a crossing reads it.
#[derive(Clone, Copy, Debug, PartialEq, Eq)]
pub struct MarchingShell {
    pub caliber: F32,
    pub mass: F32,
    /// The shot that outcomes are reported for, if they are.
    pub shot: Option<ShotId>,
    /// The bounces so far.
    pub ricochets: u32,
    /// The terminal was reported.
    pub terminal_emitted: bool,
    pub direction: Vec3,
    pub speed: F32,
}

/// Whose body the struck volume is part of.
#[derive(Clone, Copy, Debug, PartialEq, Eq)]
pub struct Owner {
    pub body: Entity,
    pub victim: Option<CombatantId>,
}

/// The owner of a volume, from row `i` on; none where it is nobody's.
pub open spec fn owner_from(owners: Seq<(Entity, Owner)>, volume: Entity, i: int) -> Option<Owner>
    decreases owners.len() - i,
{
    if i < 0 || i >= owners.len() {
        None
    } else if owners[i].0 == volume {
        Some(owners[i].1)
    } else {
        owner_from(owners, volume, i + 1)
    }
}

/// The owner of a volume.
pub open spec fn owner_of(owners: Seq<(Entity, Owner)>, volume: Entity) -> Option<Owner> {
    owner_from(owners, volume, 0)
}

proof fn lemma_owner(owners: Seq<(Entity, Owner)>, volume: Entity, from: int)
    requires
        0 <= from,
    ensures
        match owner_from(owners, volume, from) {
            Some(owner) => exists|i: int|
                {
                    &&& from <= i < owners.len()
                    &&& #[trigger] owners[i] == (volume, owner)
                    &&& forall|j: int| from <= j < i ==> (#[trigger] owners[j]).0 != volume
                },
            None => forall|j: int| from <= j < owners.len() ==> (#[trigger] owners[j]).0 != volume,
        },
    decreases owners.len() - from,
{
    if from < owners.len() {
        if owners[from].0 == volume {
            assert(owners[from] == (volume, owners[from].1));
        } else {
            lemma_owner(owners, volume, from + 1);
        }
    }
}

/// A volume is owned as its first row says, and is nobody's exactly where no row names it.
pub proof fn law_the_first_row_names_the_owner(owners: Seq<(Entity, Owner)>, volume: Entity)
    ensures
        match owner_of(owners, volume) {
            Some(owner) => exists|i: int|
                {
                    &&& 0 <= i < owners.len()
                    &&& #[trigger] owners[i] == (volume, owner)
                    &&& forall|j: int| 0 <= j < i ==> (#[trigger] owners[j]).0 != volume
                },
            None => forall|j: int| 0 <= j < owners.len() ==> (#[trigger] owners[j]).0 != volume,
        },
{
    lemma_owner(owners, volume, 0);
}

fn find_owner(owners: &Vec<(Entity, Owner)>, volume: Entity) -> (owner: Option<Owner>)
    ensures
        owner == owner_of(owners@, volume),
{
    let mut i: usize = 0;
    while i < owners.len()
        invariant
            i <= owners@.len(),
            owner_of(owners@, volume) == owner_from(owners@, volume, i as int),
        decreases owners.len() - i,
    {
        if owners[i].0 == volume {
            return Some(owners[i].1);
        }
        i = i + 1;
    }
    None
}

/// How the march goes on.
#[derive(Clone, Copy, Debug, PartialEq, Eq, Structural)]
pub enum ArmorCrossing {
    Perforated { exit: Vec3, direction: Vec3, speed: F32 },
    Ricochet { direction: Vec3, speed: F32 },
    Embedded { at: Vec3 },
}

/// What one crossing did, and what the march carries out of it.
#[derive(Clone, Debug, PartialEq)]
pub struct Crossing {
    pub outcome: ArmorCrossing,
    pub damage: F32,
    /// The metres flown, over the segments that were.
    pub travel: F32,
    /// What each sample is still inside where the march resumes.
    pub seeds: Vec<SampleSeed>,
    /// Where the march resumes, if the contact is not far enough clear.
    pub resume: Option<Vec3>,
}

#[derive(Clone, Copy, Debug, PartialEq, Eq, Structural)]
pub enum ShockCause {
    Ricochet,
    Embed,
    Perforation,
}

/// A push on a body.
#[derive(Clone, Copy, Debug, PartialEq, Eq, Structural)]
pub struct Impulse {
    pub body: Entity,
    pub momentum: Vec3,
    pub at: Vec3,
    pub cause: ShockCause,
}

/// A visible hit on armour.
#[derive(Clone, Copy, Debug, PartialEq, Eq)]
pub struct Impact {
    pub position: Vec3,
    pub normal: Vec3,
    pub caliber: F32,
    pub penetrated: bool,
    pub deflection: Option<Vec3>,
}

/// The report of a bounce.
#[derive(Clone, Copy, Debug, PartialEq, Eq)]
pub struct ShellRicochet {
    pub shot: ShotId,
    pub origin: Vec3,
    pub direction: Vec3,
    pub speed: F32,
    pub sequence: u32,
    pub victim: Option<CombatantId>,
}

/// The report of an end in armour.
#[derive(Clone, Copy, Debug, PartialEq, Eq)]
pub struct ShellTerminal {
    pub shot: ShotId,
    pub position: Vec3,
    pub normal: Vec3,
    pub penetrated: bool,
    pub after_bounces: u32,
    pub victim: Option<CombatantId>,
}

/// A hole that the round made.
#[derive(Clone, Copy, Debug, PartialEq, Eq, Structural)]
pub struct PenetrationEvent {
    pub entry: Vec3,
    pub exit: Vec3,
    pub overmatched: bool,
}

/// A burst of spall to throw.
#[derive(Clone, Copy, Debug, PartialEq, Eq, Structural)]
pub struct SpallBurst {
    pub position: Vec3,
    pub direction: Vec3,
    pub budget: F32,
    pub caliber: F32,
    pub speed: F32,
}

/// What a crossing makes happen in the world.
#[derive(Clone, Debug, PartialEq)]
pub struct Effects {
    pub impulse: Option<Impulse>,
    pub impact: Impact,
    pub ricochet: Option<ShellRicochet>,
    pub terminal: Option<ShellTerminal>,
    pub hole: Option<PenetrationEvent>,
    /// The point to draw the path to.
    pub path: Vec3,
    pub bursts: Vec<SpallBurst>,
}

/// The unit direction, or the other one where there is none.
pub open spec fn directed_or(v: Vec3, otherwise: Vec3) -> Vec3 {
    if stage::has_direction(v) {
        v.shared(v.norm())
    } else {
        otherwise
    }
}

fn unit_or(v: Vec3, otherwise: Vec3) -> (unit: Vec3)
    ensures
        unit == directed_or(v, otherwise),
{
    let length: F32 = v.length();
    if length.is_finite() && F32::zero().lt(length) {
        v.over(length)
    } else {
        otherwise
    }
}

/// Where a component is in the list, from row `i` on.
pub open spec fn component_at(health: Seq<(Entity, F32)>, entity: Entity, i: int) -> Option<int>
    decreases health.len() - i,
{
    if i < 0 || i >= health.len() {
        None
    } else if health[i].0 == entity {
        Some(i)
    } else {
        component_at(health, entity, i + 1)
    }
}

/// Hit points less an amount, never below none.
pub open spec fn worn(current: F32, amount: F32) -> F32 {
    current.difference(amount).larger(F32::zero())
}

/// The hit points and the damage dealt once a component takes an amount; as they were
/// where it has no hit points.
pub open spec fn wounded(state: (Seq<(Entity, F32)>, F32), entity: Entity, amount: F32) -> (Seq<(Entity, F32)>, F32) {
    let (health, damage) = state;
    match component_at(health, entity, 0) {
        Some(i) => {
            let after = worn(health[i].1, amount);
            (health.update(i, (entity, after)), damage.sum(health[i].1.difference(after)))
        },
        None => state,
    }
}

/// The same for the first `n` deposits.
pub open spec fn wounded_by(
    state: (Seq<(Entity, F32)>, F32),
    deposits: Seq<EntityDeposit>,
    n: int,
) -> (Seq<(Entity, F32)>, F32)
    decreases n,
{
    if n <= 0 {
        state
    } else {
        wounded(
            wounded_by(state, deposits, n - 1),
            deposits[n - 1].entity,
            deposits[n - 1].cost.product(transit_k()),
        )
    }
}

fn wound(health: &mut Vec<(Entity, F32)>, damage: F32, entity: Entity, amount: F32) -> (dealt: F32)
    ensures
        (final(health)@, dealt) == wounded((old(health)@, damage), entity, amount),
{
    let mut i: usize = 0;
    while i < health.len()
        invariant
            i <= health@.len(),
            health@ == old(health)@,
            component_at(health@, entity, 0) == component_at(health@, entity, i as int),
        decreases health.len() - i,
    {
        let (named, before) = health[i];
        if named == entity {
            let after: F32 = before.minus(amount).max(F32::zero());
            health.set(i, (entity, after));
            return damage.plus(before.minus(after));
        }
        i = i + 1;
    }
    damage
}

/// A component's hit points never fall below none, and never rise: for hit points
/// that are not negative and an amount that is not.
pub proof fn law_wounds_only_take(current: F32, amount: F32)
    requires
        F32::zero().at_most(current),
        current.finite(),
        F32::zero().at_most(amount),
        amount.finite(),
    ensures
        F32::zero().at_most(worn(current, amount)),
        worn(current, amount).at_most(current),
{
    F32::zero().lemma_nonnegative();
    current.lemma_difference_below(amount);
}

/// The combatant of an owner.
pub open spec fn victim_of(owner: Option<Owner>) -> Option<CombatantId> {
    match owner {
        Some(owner) => owner.victim,
        None => None,
    }
}

/// The push on an owner's body, if there is one.
pub open spec fn push_on(owner: Option<Owner>, momentum: Vec3, at: Vec3, cause: ShockCause) -> Option<Impulse> {
    match owner {
        Some(owner) => Some(Impulse { body: owner.body, momentum, at, cause }),
        None => None,
    }
}

/// The shot to report for: none once its terminal was reported.
pub open spec fn reported(shell: MarchingShell) -> Option<ShotId> {
    if shell.terminal_emitted {
        None
    } else {
        shell.shot
    }
}

/// The bounce: deflected, no entry, no spall. The march resumes clear of the face by
/// the disc's own radius, which is not counted as flown.
pub open spec fn is_bounce(
    crossing: Crossing,
    effects: Effects,
    shell: MarchingShell,
    anchor: Vec3,
    read: EntranceRead,
    direction: Vec3,
    speed_scale: F32,
    radius: F32,
    owner: Option<Owner>,
) -> bool {
    let position = anchor.sum(read.position);
    let out = directed_or(direction, shell.direction);
    let bled = shell.speed.product(speed_scale);
    &&& crossing.outcome == (ArmorCrossing::Ricochet { direction: out, speed: bled })
    &&& crossing.travel == read.position.inner(shell.direction).larger(F32::zero())
    &&& crossing.seeds@.len() == 0
    &&& crossing.resume == Some(position.sum(read.normal.scaled(radius)))
    &&& effects.impulse == push_on(
        owner,
        shell.direction.scaled(shell.speed).difference(out.scaled(bled)).scaled(shell.mass),
        position,
        ShockCause::Ricochet,
    )
    &&& effects.impact == (Impact {
        position,
        normal: read.normal,
        caliber: shell.caliber,
        penetrated: false,
        deflection: Some(out),
    })
    &&& effects.ricochet == match reported(shell) {
        Some(shot) => Some(
            ShellRicochet {
                shot,
                origin: position,
                direction: out,
                speed: bled,
                sequence: shell.ricochets,
                victim: victim_of(owner),
            },
        ),
        None => None,
    }
    &&& effects.terminal is None
    &&& effects.hole is None
    &&& effects.path == position
    &&& effects.bursts@.len() == 0
}

/// The round, one bounce on.
pub open spec fn bounced(shell: MarchingShell) -> MarchingShell {
    MarchingShell { ricochets: (shell.ricochets + 1) as u32, ..shell }
}

fn owner_victim(owner: &Option<Owner>) -> (victim: Option<CombatantId>)
    ensures
        victim == victim_of(*owner),
{
    match owner {
        Some(owner) => owner.victim,
        None => None,
    }
}

fn owner_push(owner: &Option<Owner>, momentum: Vec3, at: Vec3, cause: ShockCause) -> (impulse: Option<Impulse>)
    ensures
        impulse == push_on(*owner, momentum, at, cause),
{
    match owner {
        Some(owner) => Some(Impulse { body: owner.body, momentum, at, cause }),
        None => None,
    }
}

fn report_for(shell: &MarchingShell) -> (shot: Option<ShotId>)
    ensures
        shot == reported(*shell),
{
    if shell.terminal_emitted {
        None
    } else {
        shell.shot
    }
}

/// Deflects the round off the entrance. Even a bounce jars the struck component, by the
/// impact and by how squarely it came; `squareness` is the cosine of the incidence.
/// The bounce is counted. `owners` tells whose the volumes are; `deposit` is set where this side
/// decides about hit points.
pub fn ricochet(
    shell: &mut MarchingShell,
    anchor: Vec3,
    read: &EntranceRead,
    struck: Entity,
    direction: Vec3,
    speed_scale: F32,
    radius: F32,
    capability: F32,
    squareness: F32,
    owners: &Vec<(Entity, Owner)>,
    deposit: bool,
    health: &mut Vec<(Entity, F32)>,
) -> (bounce: (Crossing, Effects))
    requires
        old(shell).ricochets < u32::MAX,
    ensures
        is_bounce(
            bounce.0,
            bounce.1,
            *old(shell),
            anchor,
            *read,
            direction,
            speed_scale,
            radius,
            owner_of(owners@, struck),
        ),
        *final(shell) == bounced(*old(shell)),
        (final(health)@, bounce.0.damage) == if deposit {
            wounded((old(health)@, F32::zero()), struck, shock_k().product(capability).product(squareness))
        } else {
            (old(health)@, F32::zero())
        },
{
    let owner: Option<Owner> = find_owner(owners, struck);
    let position: Vec3 = anchor.plus(read.position);
    let out: Vec3 = unit_or(direction, shell.direction);
    let bled: F32 = shell.speed.times(speed_scale);
    let damage: F32 = if deposit {
        wound(health, F32::zero(), struck, shock_k().times(capability).times(squareness))
    } else {
        F32::zero()
    };
    let momentum: Vec3 = shell.direction.times(shell.speed).minus(out.times(bled)).times(shell.mass);
    let reported: Option<ShellRicochet> = match report_for(shell) {
        Some(shot) => Some(
            ShellRicochet {
                shot,
                origin: position,
                direction: out,
                speed: bled,
                sequence: shell.ricochets,
                victim: owner_victim(&owner),
            },
        ),
        None => None,
    };
    shell.ricochets = shell.ricochets + 1;
    (
        Crossing {
            outcome: ArmorCrossing::Ricochet { direction: out, speed: bled },
            damage,
            travel: read.position.dot(shell.direction).max(F32::zero()),
            seeds: Vec::new(),
            resume: Some(position.plus(read.normal.times(radius))),
        },
        Effects {
            impulse: owner_push(&owner, momentum, position, ShockCause::Ricochet),
            impact: Impact {
                position,
                normal: read.normal,
                caliber: shell.caliber,
                penetrated: false,
                deflection: Some(out),
            },
            ricochet: reported,
            terminal: None,
            hole: None,
            path: position,
            bursts: Vec::new(),
        },
    )
}

/// What the round has left after the plan's cost.
pub open spec fn left_after(capability: F32, plan: ResolutionPlan) -> F32 {
    capability.difference(plan.cost_spent).larger(F32::zero())
}

/// The capability that the speed on the far side is computed from.
pub fn remaining_capability(capability: F32, plan: &ResolutionPlan) -> (left: F32)
    ensures
        left == left_after(capability, *plan),
{
    capability.minus(plan.cost_spent).max(F32::zero())
}

/// The spall of a plan, thrown in the world along the bent axis.
pub open spec fn are_bursts(
    bursts: Seq<SpallBurst>,
    spall: Seq<DiscSpall>,
    anchor: Vec3,
    bent: Vec3,
    caliber: F32,
    residual: F32,
) -> bool {
    &&& bursts.len() == spall.len()
    &&& forall|i: int|
        0 <= i < spall.len() ==> #[trigger] bursts[i] == (SpallBurst {
            position: anchor.sum(spall[i].position),
            direction: bent,
            budget: spall[i].budget,
            caliber,
            speed: residual,
        })
}

/// The bite: what the plan makes happen in the world. `residual` is the speed kept by a
/// round that comes out.
pub open spec fn is_bite(
    crossing: Crossing,
    effects: Effects,
    shell: MarchingShell,
    transit: DiscWalk,
    plan: ResolutionPlan,
    bent: Vec3,
    residual: F32,
    owner: Option<Owner>,
    laws: WalkLaws,
) -> bool {
    let entry = transit.anchor.sum(plan.entrance.position);
    let approach = transit.origin.inner(shell.direction).larger(F32::zero());
    let v_in = shell.direction.scaled(shell.speed);
    &&& match plan.outcome {
        Outcome::Embedded { at, t } => {
            let stop = transit.anchor.sum(at);
            &&& crossing.outcome == (ArmorCrossing::Embedded { at: stop })
            &&& crossing.travel == approach.sum(t.halved())
            &&& crossing.seeds@.len() == 0
            &&& effects.impulse == push_on(owner, v_in.scaled(shell.mass), stop, ShockCause::Embed)
            &&& effects.impact.position == stop
            &&& effects.hole == Some(
                PenetrationEvent { entry, exit: stop, overmatched: plan.entrance.overmatched },
            )
            &&& effects.path == stop
            &&& effects.bursts@.len() == 0
        },
        Outcome::Perforated { exit, exit_normal: _, direction: _, t } => {
            let exit = transit.anchor.sum(exit);
            &&& crossing.outcome == (ArmorCrossing::Perforated {
                exit: transit.anchor.sum(events::point_at(transit.origin, transit.axis, t)),
                direction: bent,
                speed: residual,
            })
            &&& crossing.travel == approach.sum(t.halved())
            &&& crossing.seeds@.len() == transit.walks@.len()
            &&& forall|i: int|
                0 <= i < crossing.seeds@.len() ==> transit.is_seed(
                    #[trigger] crossing.seeds@[i],
                    i,
                    t.sum(march_eps().doubled()),
                    laws,
                )
            &&& effects.impulse == push_on(
                owner,
                v_in.difference(bent.scaled(residual)).scaled(shell.mass),
                entry,
                ShockCause::Perforation,
            )
            &&& effects.impact.position == entry
            &&& effects.hole == Some(PenetrationEvent { entry, exit, overmatched: plan.entrance.overmatched })
            &&& effects.path == exit
            &&& are_bursts(effects.bursts@, plan.spall@, transit.anchor, bent, shell.caliber, residual)
        },
    }
    &&& crossing.resume is None
    &&& effects.impact.normal == plan.entrance.normal
    &&& effects.impact.caliber == shell.caliber
    &&& effects.impact.penetrated
    &&& effects.impact.deflection is None
    &&& effects.ricochet is None
    &&& effects.terminal == match reported(shell) {
        Some(shot) => Some(
            ShellTerminal {
                shot,
                position: effects.impact.position,
                normal: plan.entrance.normal,
                penetrated: true,
                after_bounces: shell.ricochets,
                victim: victim_of(owner),
            },
        ),
        None => None,
    }
}

/// A shot's end is reported once: after a bite there is nothing left to report.
pub proof fn law_a_terminal_is_reported_once(
    crossing: Crossing,
    effects: Effects,
    shell: MarchingShell,
    transit: DiscWalk,
    plan: ResolutionPlan,
    bent: Vec3,
    residual: F32,
    owner: Option<Owner>,
    laws: WalkLaws,
)
    requires
        is_bite(crossing, effects, shell, transit, plan, bent, residual, owner, laws),
    ensures
        reported(told(shell, effects)) is None,
        effects.terminal is Some <==> shell.shot is Some && !shell.terminal_emitted,
{
}

fn throw_bursts(spall: &Vec<DiscSpall>, anchor: Vec3, bent: Vec3, caliber: F32, residual: F32) -> (bursts: Vec<
    SpallBurst,
>)
    ensures
        are_bursts(bursts@, spall@, anchor, bent, caliber, residual),
{
    let mut bursts: Vec<SpallBurst> = Vec::new();
    let mut i: usize = 0;
    while i < spall.len()
        invariant
            i <= spall@.len(),
            bursts@.len() == i,
            forall|j: int|
                0 <= j < i ==> #[trigger] bursts@[j] == (SpallBurst {
                    position: anchor.sum(spall@[j].position),
                    direction: bent,
                    budget: spall@[j].budget,
                    caliber,
                    speed: residual,
                }),
        decreases spall.len() - i,
    {
        bursts.push(
            SpallBurst {
                position: anchor.plus(spall[i].position),
                direction: bent,
                budget: spall[i].budget,
                caliber,
                speed: residual,
            },
        );
        i = i + 1;
    }
    bursts
}

/// The round after it bit in: its terminal was reported, now or before, where it has a shot to
/// report for.
pub open spec fn told(shell: MarchingShell, effects: Effects) -> MarchingShell {
    MarchingShell { terminal_emitted: shell.terminal_emitted || effects.terminal is Some, ..shell }
}

/// Spends the plan: charges every volume for the material of its own that the round
/// went through, throws the spall, and stops the round or brings it out. The one pushed
/// and named as the victim owns the volume that the transit entered first. A terminal that
/// is reported is noted on the round, so that it is reported once. The spall's own damage
/// comes on top: see [`with_spall`].
pub fn perforate_or_embed(
    shell: &mut MarchingShell,
    transit: &DiscWalk,
    plan: &ResolutionPlan,
    bent: Vec3,
    residual: F32,
    owners: &Vec<(Entity, Owner)>,
    deposit: bool,
    laws: &WalkLaws,
    health: &mut Vec<(Entity, F32)>,
) -> (bite: (Crossing, Effects))
    requires
        transit.wf(),
        transit.events@.len() > 0,
    ensures
        is_bite(
            bite.0,
            bite.1,
            *old(shell),
            *transit,
            *plan,
            bent,
            residual,
            owner_of(owners@, transit.events@[0].entrance_volume),
            *laws,
        ),
        *final(shell) == told(*old(shell), bite.1),
        (final(health)@, bite.0.damage) == if deposit {
            wounded_by((old(health)@, F32::zero()), plan.deposits@, plan.deposits@.len() as int)
        } else {
            (old(health)@, F32::zero())
        },
        deposit && wounds::is_roster(old(health)@) && wounds::are_charges(plan.deposits@) && wounds::is_in_range(
            old(health)@,
            plan.deposits@,
        ) ==> wounds::are_dealt(old(health)@, plan.deposits@, final(health)@, bite.0.damage),
{
    let owner: Option<Owner> = find_owner(owners, transit.events[0].entrance_volume);
    let entry: Vec3 = transit.anchor.plus(plan.entrance.position);
    let v_in: Vec3 = shell.direction.times(shell.speed);
    let mut damage: F32 = F32::zero();
    if deposit {
        let mut n: usize = 0;
        while n < plan.deposits.len()
            invariant
                n <= plan.deposits@.len(),
                (health@, damage) == wounded_by((old(health)@, F32::zero()), plan.deposits@, n as int),
            decreases plan.deposits.len() - n,
        {
            let charge: EntityDeposit = plan.deposits[n];
            damage = wound(health, damage, charge.entity, charge.cost.times(transit_k()));
            n = n + 1;
        }
        proof {
            if wounds::is_roster(old(health)@) && wounds::are_charges(plan.deposits@) && wounds::is_in_range(
                old(health)@,
                plan.deposits@,
            ) {
                wounds::law_every_deposit_counts(old(health)@, plan.deposits@);
            }
        }
    }
    let approach: F32 = transit.origin.dot(shell.direction).max(F32::zero());
    let victim: Option<CombatantId> = owner_victim(&owner);
    let overmatched: bool = plan.entrance.overmatched;
    let normal: Vec3 = plan.entrance.normal;
    let (outcome, seeds, flown, impulse, at, exit, bursts): (
        ArmorCrossing,
        Vec<SampleSeed>,
        F32,
        Option<Impulse>,
        Vec3,
        Vec3,
        Vec<SpallBurst>,
    ) = match plan.outcome {
        Outcome::Embedded { at, t } => {
            let stop: Vec3 = transit.anchor.plus(at);
            (
                ArmorCrossing::Embedded { at: stop },
                Vec::new(),
                approach.plus(t.to_single()),
                owner_push(&owner, v_in.times(shell.mass), stop, ShockCause::Embed),
                stop,
                stop,
                Vec::new(),
            )
        },
        Outcome::Perforated { exit, exit_normal: _, direction: _, t } => (
            ArmorCrossing::Perforated {
                exit: transit.anchor.plus(position_at(transit.origin, transit.axis, t)),
                direction: bent,
                speed: residual,
            },
            transit.resume_at(t.plus(march_eps().to_double()), laws),
            approach.plus(t.to_single()),
            owner_push(
                &owner,
                v_in.minus(bent.times(residual)).times(shell.mass),
                entry,
                ShockCause::Perforation,
            ),
            entry,
            transit.anchor.plus(exit),
            throw_bursts(&plan.spall, transit.anchor, bent, shell.caliber, residual),
        ),
    };
    let terminal: Option<ShellTerminal> = match report_for(shell) {
        Some(shot) => Some(
            ShellTerminal {
                shot,
                position: at,
                normal,
                penetrated: true,
                after_bounces: shell.ricochets,
                victim,
            },
        ),
        None => None,
    };
    if terminal.is_some() {
        shell.terminal_emitted = true;
    }
    (
        Crossing { outcome, damage, travel: flown, seeds, resume: None },
        Effects {
            impulse,
            impact: Impact { position: at, normal, caliber: shell.caliber, penetrated: true, deflection: None },
            ricochet: None,
            terminal,
            hole: Some(PenetrationEvent { entry, exit, overmatched }),
            path: exit,
            bursts,
        },
    )
}

/// The damage once the first `n` bursts dealt theirs.
pub open spec fn damage_with(damage: F32, thrown: Seq<F32>, n: int) -> F32
    decreases n,
{
    if n <= 0 {
        damage
    } else {
        damage_with(damage, thrown, n - 1).sum(thrown[n - 1])
    }
}

/// A crossing's damage with what its bursts dealt, in the order they were thrown.
pub fn with_spall(damage: F32, thrown: &Vec<F32>) -> (total: F32)
    ensures
        total == damage_with(damage, thrown@, thrown@.len() as int),
{
    let mut total: F32 = damage;
    let mut i: usize = 0;
    while i < thrown.len()
        invariant
            i <= thrown@.len(),
            total == damage_with(damage, thrown@, i as int),
        decreases thrown.len() - i,
    {
        total = total.plus(thrown[i]);
        i = i + 1;
    }
    total
}

/// Where the entrance leaves the round.
#[derive(Clone, Debug, PartialEq)]
pub enum Entered {
    /// The disc met nothing: the round flies past all that was looked at.
    Missed(Crossing),
    Bounced(Crossing, Effects),
    /// It bites in, and this corridor is collected next.
    Bites(TransitRequest, CorridorRequest),
}

/// The corridor of a transit.
pub open spec fn is_transit_corridor(corridor: CorridorRequest, request: TransitRequest) -> bool {
    &&& corridor.anchor == request.anchor
    &&& corridor.origin == request.origin
    &&& corridor.axis == request.axis
    &&& corridor.frame == request.frame
    &&& corridor.radius == request.radius
    &&& corridor.length == opening(entrance_span())
    &&& corridor.seeds@.len() == request.seeds@.len()
    &&& forall|i: int| 0 <= i < request.seeds@.len() ==> is_same_seed(#[trigger] corridor.seeds@[i], request.seeds@[i])
}

/// The same seed.
pub open spec fn is_same_seed(a: SampleSeed, b: SampleSeed) -> bool {
    a.sample == b.sample && a.offset == b.offset && a.t == b.t && a.inside@ == b.inside@
}

fn transit_corridor(request: &TransitRequest) -> (corridor: CorridorRequest)
    ensures
        is_transit_corridor(corridor, *request),
{
    let mut seeds: Vec<SampleSeed> = Vec::new();
    let mut n: usize = 0;
    while n < request.seeds.len()
        invariant
            n <= request.seeds@.len(),
            seeds@.len() == n,
            forall|i: int| 0 <= i < n ==> is_same_seed(#[trigger] seeds@[i], request.seeds@[i]),
        decreases request.seeds.len() - n,
    {
        let seed: &SampleSeed = &request.seeds[n];
        let mut inside: Vec<ShellKey> = Vec::new();
        let mut i: usize = 0;
        while i < seed.inside.len()
            invariant
                i <= seed.inside@.len(),
                inside@ == seed.inside@.take(i as int),
            decreases seed.inside.len() - i,
        {
            inside.push(seed.inside[i]);
            assert(inside@ =~= seed.inside@.take(i + 1));
            i = i + 1;
        }
        assert(seed.inside@.take(i as int) =~= seed.inside@);
        seeds.push(SampleSeed { sample: seed.sample, offset: seed.offset, t: seed.t, inside });
        n = n + 1;
    }
    CorridorRequest {
        anchor: request.anchor,
        origin: request.origin,
        axis: request.axis,
        frame: request.frame,
        radius: request.radius,
        seeds,
        length: opening_length(entrance_span()),
    }
}

/// Decides the entrance that was walked. `contact` is the distance to the first armour
/// that was met, `owners` tells whose the volumes are.
pub fn resolve_entrance(
    shell: &mut MarchingShell,
    entrance: &DiscWalk,
    contact: F32,
    shot: &Shot,
    turn: &Turn,
    squareness: F32,
    owners: &Vec<(Entity, Owner)>,
    deposit: bool,
    laws: &WalkLaws,
    health: &mut Vec<(Entity, F32)>,
) -> (entered: Entered)
    requires
        entrance.wf(),
        old(shell).ricochets < u32::MAX,
    ensures
        *final(shell) == if entered is Bounced {
            bounced(*old(shell))
        } else {
            *old(shell)
        },
        match entered {
            Entered::Missed(crossing) => {
                let examined = contact.sum(entrance_span());
                &&& !stage::is_engaged(*entrance)
                &&& crossing.outcome == (ArmorCrossing::Perforated {
                    exit: entrance.anchor.sum(old(shell).direction.scaled(examined)),
                    direction: old(shell).direction,
                    speed: old(shell).speed,
                })
                &&& crossing.damage == F32::zero()
                &&& crossing.travel == examined
                &&& crossing.seeds@.len() == 0
                &&& crossing.resume is None
                &&& final(health)@ == old(health)@
            },
            Entered::Bounced(crossing, effects) => {
                let event = entrance.events@[0];
                let read = stage::entrance_read(*entrance, *shot, *laws, turn.incidence);
                let direction = if F32::one().at_most(event.coverage) {
                    turn.specular
                } else {
                    turn.blended
                };
                let scale = F32::one().difference(event.coverage.product(F32::one().difference(laws.ricochet_bleed)));
                &&& stage::is_engaged(*entrance)
                &&& stage::ricochets(read, *laws)
                &&& is_bounce(
                    crossing,
                    effects,
                    *old(shell),
                    entrance.anchor,
                    read,
                    direction,
                    scale,
                    radius_of(old(shell).caliber),
                    owner_of(owners@, event.entrance_volume),
                )
                &&& (final(health)@, crossing.damage) == if deposit {
                    wounded(
                        (old(health)@, F32::zero()),
                        event.entrance_volume,
                        shock_k().product(shot.capability).product(squareness),
                    )
                } else {
                    (old(health)@, F32::zero())
                }
            },
            Entered::Bites(request, corridor) => {
                &&& stage::is_engaged(*entrance)
                &&& !stage::ricochets(stage::entrance_read(*entrance, *shot, *laws, turn.incidence), *laws)
                &&& stage::is_request(request, *entrance, *shot, *laws, *turn)
                &&& request.wf()
                &&& is_transit_corridor(corridor, request)
                &&& final(health)@ == old(health)@
            },
        },
{
    match begin(entrance, shot, laws, turn) {
        Begin::Miss => {
            let examined: F32 = contact.plus(entrance_span());
            Entered::Missed(
                Crossing {
                    outcome: ArmorCrossing::Perforated {
                        exit: entrance.anchor.plus(shell.direction.times(examined)),
                        direction: shell.direction,
                        speed: shell.speed,
                    },
                    damage: F32::zero(),
                    travel: examined,
                    seeds: Vec::new(),
                    resume: None,
                },
            )
        },
        Begin::Ricochet { entrance: read, direction, angle: _, speed_scale } => {
            let radius: F32 = disc_radius(shell.caliber);
            let (crossing, effects): (Crossing, Effects) = ricochet(
                shell,
                entrance.anchor,
                &read,
                entrance.events[0].entrance_volume,
                direction,
                speed_scale,
                radius,
                shot.capability,
                squareness,
                owners,
                deposit,
                health,
            );
            Entered::Bounced(crossing, effects)
        },
        Begin::Transit(request) => {
            let corridor: CorridorRequest = transit_corridor(&request);
            Entered::Bites(request, corridor)
        },
    }
}

/// The direction that a round which bit in goes on in.
pub fn bent_direction(request: &TransitRequest, incoming: Vec3) -> (bent: Vec3)
    ensures
        bent == directed_or(request.axis, incoming),
{
    unit_or(request.axis, incoming)
}

/// Candidates order by volume, then by collider.
pub open spec fn is_sorted_pair(a: (Entity, Entity), b: (Entity, Entity)) -> bool {
    a.0.id < b.0.id || (a.0.id == b.0.id && a.1.id <= b.1.id)
}

/// The candidates in order.
pub open spec fn is_sorted(pairs: Seq<(Entity, Entity)>) -> bool {
    forall|i: int, j: int| 0 <= i < j < pairs.len() ==> is_sorted_pair(#[trigger] pairs[i], #[trigger] pairs[j])
}

/// Puts what the broad phase found into one order, whatever order it came in.
pub fn order_candidates(found: &Vec<(Entity, Entity)>) -> (ordered: Vec<(Entity, Entity)>)
    ensures
        is_sorted(ordered@),
        ordered@.to_multiset() == found@.to_multiset(),
{
    broadcast use vstd::seq_lib::group_to_multiset_ensures;

    let mut ordered: Vec<(Entity, Entity)> = Vec::new();
    let mut n: usize = 0;
    assert(found@.take(0) =~= ordered@);
    while n < found.len()
        invariant
            n <= found@.len(),
            is_sorted(ordered@),
            ordered@.len() == n,
            ordered@.to_multiset() == found@.take(n as int).to_multiset(),
        decreases found.len() - n,
    {
        broadcast use vstd::seq_lib::group_to_multiset_ensures;

        let pair: (Entity, Entity) = found[n];
        let mut at: usize = ordered.len();
        while at > 0 && (pair.0.id < ordered[at - 1].0.id || (pair.0.id == ordered[at - 1].0.id && pair.1.id
            < ordered[at - 1].1.id))
            invariant
                at <= ordered@.len(),
                is_sorted(ordered@),
                forall|i: int| at <= i < ordered@.len() ==> is_sorted_pair(pair, #[trigger] ordered@[i]),
            decreases at,
        {
            at = at - 1;
        }
        let ghost before = ordered@;
        proof {
            assert forall|i: int| 0 <= i < at implies is_sorted_pair(#[trigger] before[i], pair) by {
                if i < at - 1 {
                    assert(is_sorted_pair(before[i], before[at - 1]));
                }
            }
            assert(before.insert(at as int, pair).remove(at as int) =~= before);
            assert(before.insert(at as int, pair)[at as int] == pair);
            assert(before.insert(at as int, pair).contains(pair));
            assert(before.insert(at as int, pair).to_multiset() =~= before.to_multiset().insert(pair));
            assert(found@.take(n + 1) =~= found@.take(n as int).push(pair));
        }
        ordered.insert(at, pair);
        n = n + 1;
    }
    assert(found@.take(n as int) =~= found@);
    ordered
}

/// The order that the broad phase found its candidates in leaves no trace.
pub proof fn law_candidates_in_any_order(a: Seq<(Entity, Entity)>, b: Seq<(Entity, Entity)>)
    requires
        is_sorted(a),
        is_sorted(b),
        a.to_multiset() == b.to_multiset(),
    ensures
        a == b,
{
    let leq = |x: (Entity, Entity), y: (Entity, Entity)| is_sorted_pair(x, y);
    assert(vstd::relations::total_ordering(leq));
    assert(vstd::relations::sorted_by(a, leq));
    assert(vstd::relations::sorted_by(b, leq));
    vstd::seq_lib::lemma_sorted_unique(a, b, leq);
}

} // verus!
