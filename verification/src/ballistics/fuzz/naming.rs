//! Every volume that a probe speaks of can be written down.

use crate::ballistics::collect;
use crate::ballistics::collect::{Aabb, Corridor};
use crate::ballistics::fuzz::findings;
use crate::ballistics::fuzz::rays::FuzzRay;
use crate::ballistics::fuzz::scene;
use crate::ballistics::fuzz::scene::{Scene, SceneCollider};
use crate::ballistics::resolve;
use crate::ballistics::resolve::CorridorRequest;
use crate::ballistics::walk::disc::{DiscCorridor, DiscFrame, DiscWalk, SampleCorridor};
use crate::ballistics::walk::disc_walk;
use crate::ballistics::walk::field;
use crate::ballistics::walk::locality;
use crate::ballistics::walk::presence;
use crate::ballistics::walk::ray;
use crate::ballistics::walk::table;
use crate::ballistics::walk::table::VolumeTable;
use crate::ballistics::walk::topology::Toggle;
use crate::ballistics::walk::vocabulary::{Entity, FaceHit, ShellKey, WalkError};
use crate::float::F32;
use vstd::prelude::*;

verus! {

/// A candidate is one of the colliders.
proof fn lemma_candidate(colliders: Seq<SceneCollider>, aabb: Aabb, n: int, j: int) -> (i: int)
    requires
        0 <= n <= colliders.len(),
        0 <= j < scene::candidates_upto(colliders, aabb, n).len(),
    ensures
        0 <= i < n,
        scene::candidates_upto(colliders, aabb, n)[j].node == colliders[i].node,
    decreases n,
{
    let shorter = scene::candidates_upto(colliders, aabb, n - 1);
    if j < shorter.len() {
        lemma_candidate(colliders, aabb, n - 1, j)
    } else {
        n - 1
    }
}

/// Every volume that the corridor's samples meet is written, and none is declared.
spec fn is_all_written(scene: Scene, corridor: DiscCorridor) -> bool {
    &&& forall|s: int, h: int|
        0 <= s < corridor.samples@.len() && 0 <= h < corridor.samples@[s].hits@.len() ==> scene::is_written(
            scene,
            (#[trigger] corridor.samples@[s].hits@[h]).volume,
        )
    &&& forall|s: int| 0 <= s < corridor.samples@.len() ==> (#[trigger] corridor.samples@[s]).initial_presence@.len() == 0
}

proof fn lemma_collected(scene: Scene, ray: FuzzRay, frame: DiscFrame, radius: F32, corridor: DiscCorridor)
    requires
        scene.wf(),
        scene::is_collected(Ok(corridor), scene, ray, frame, radius),
    ensures
        is_all_written(scene, corridor),
{
    let request = choose|request: CorridorRequest| #[trigger]
        scene::is_probe_request(request, ray, frame, radius) && resolve::is_corridor(
            Ok(corridor),
            request,
            scene.ring@,
            scene::answers_of(scene, request),
            scene.laws,
        );
    let answers = scene::answers_of(scene, request);
    let aabb = collect::swept(request.anchor.sum(request.origin), request.axis, request.length, request.radius);
    let samples = corridor.samples@;
    assert forall|s: int| 0 <= s < samples.len() implies (#[trigger] samples[s]).initial_presence@.len() == 0 by {
        assert(resolve::is_sample(
            samples[s],
            request,
            resolve::offset_of(request, scene.ring@, s),
            resolve::seeded_at(request, s),
            scene.laws,
            answers[s],
        ));
    }
    assert forall|s: int, h: int| 0 <= s < samples.len() && 0 <= h < samples[s].hits@.len() implies scene::is_written(
        scene,
        (#[trigger] samples[s].hits@[h]).volume,
    ) by {
        let offset = resolve::offset_of(request, scene.ring@, s);
        assert(resolve::is_sample(
            samples[s],
            request,
            offset,
            resolve::seeded_at(request, s),
            scene.laws,
            answers[s],
        ));
        let along = Corridor {
            anchor: request.anchor,
            origin: request.origin.sum(offset),
            axis: request.axis,
            length: request.length,
            seeded: &samples[s].initial_presence,
            laws: &scene.laws,
        };
        let j = collect::lemma_collected_owned(along, answers[s], answers[s].len() as int, h);
        assert(answers[s] == scene::candidates_upto(scene.colliders@, aabb, scene.colliders@.len() as int));
        let i = lemma_candidate(scene.colliders@, aabb, scene.colliders@.len() as int, j);
        assert(scene::is_written(scene, scene.colliders@[i].node));
    }
}

/// A collection that is refused blames a collider.
proof fn lemma_refused(scene: Scene, ray: FuzzRay, frame: DiscFrame, radius: F32, error: WalkError)
    requires
        scene.wf(),
        scene::is_collected(Err(error), scene, ray, frame, radius),
    ensures
        findings::blamed(error) matches Some(volume) ==> scene::is_written(scene, volume),
{
    let request = choose|request: CorridorRequest| #[trigger]
        scene::is_probe_request(request, ray, frame, radius) && resolve::is_corridor(
            Err(error),
            request,
            scene.ring@,
            scene::answers_of(scene, request),
            scene.laws,
        );
    let answers = scene::answers_of(scene, request);
    let aabb = collect::swept(request.anchor.sum(request.origin), request.axis, request.length, request.radius);
    let (samples, seeded) = choose|samples: Seq<SampleCorridor>, seeded: &Vec<ShellKey>| #[trigger]
        resolve::is_refused(error, samples, seeded, request, scene.ring@, scene.laws, answers);
    let s = samples.len() as int;
    let along = Corridor {
        anchor: request.anchor,
        origin: request.origin.sum(resolve::offset_of(request, scene.ring@, s)),
        axis: request.axis,
        length: request.length,
        seeded,
        laws: &scene.laws,
    };
    let j = collect::lemma_fault_owned(Seq::<FaceHit>::empty(), along, answers[s], answers[s].len() as int);
    assert(answers[s] == scene::candidates_upto(scene.colliders@, aabb, scene.colliders@.len() as int));
    let i = lemma_candidate(scene.colliders@, aabb, scene.colliders@.len() as int, j);
    assert(scene::is_written(scene, scene.colliders@[i].node));
}

/// The volumes that samples name are those of their hits.
proof fn lemma_mentioned(scene: Scene, corridor: DiscCorridor, n: int, k: int)
    requires
        is_all_written(scene, corridor),
        0 <= n <= corridor.samples@.len(),
        0 <= k < resolve::mentions_upto(corridor.samples@, n).len(),
    ensures
        scene::is_written(scene, resolve::mentions_upto(corridor.samples@, n)[k]),
    decreases n,
{
    let samples = corridor.samples@;
    if n > 0 {
        let rest = resolve::mentions_upto(samples, n - 1);
        if k < rest.len() {
            lemma_mentioned(scene, corridor, n - 1, k);
        } else {
            let h = k - rest.len();
            assert(samples[n - 1].initial_presence@.len() == 0);
            let own = resolve::mentions(samples[n - 1]);
            assert(own.len() == samples[n - 1].hits@.len());
            assert(own[h] == samples[n - 1].hits@[h].volume);
            assert(scene::is_written(scene, corridor.samples@[n - 1].hits@[h].volume));
        }
    }
}

/// The entries, and the volume that is not known, are among those named.
proof fn lemma_entries(named: Seq<Entity>, factors: Seq<(Entity, F32)>, n: int)
    requires
        0 <= n <= named.len(),
    ensures
        match resolve::entries_of(named, factors, n) {
            Ok(entries) => forall|i: int| 0 <= i < entries.len() ==> named.contains((#[trigger] entries[i]).0),
            Err(volume) => named.contains(volume),
        },
    decreases n,
{
    if n > 0 {
        lemma_entries(named, factors, n - 1);
        assert(named.contains(named[n - 1]));
    }
}

/// An open shell that was not declared has a crossing.
proof fn lemma_open(toggles: Seq<Toggle>, seeds: Seq<ShellKey>, n: int, key: ShellKey) -> (j: int)
    requires
        0 <= n <= toggles.len(),
        seeds.len() == 0,
        field::is_open(toggles, seeds, n, key),
    ensures
        0 <= j < n,
        toggles[j].key == key,
    decreases n,
{
    if n <= 0 {
        assert(!seeds.contains(key));
        0
    } else if toggles[n - 1].key == key {
        n - 1
    } else {
        lemma_open(toggles, seeds, n - 1, key)
    }
}

/// A crossing of a sample is of a volume that is written.
proof fn lemma_crossed(scene: Scene, corridor: DiscCorridor, s: int, j: int)
    requires
        is_all_written(scene, corridor),
        0 <= s < corridor.samples@.len(),
        0 <= j < ray::crossings_of(disc_walk::sample_corridor(corridor, s), scene.laws).len(),
    ensures
        scene::is_written(
            scene,
            ray::crossings_of(disc_walk::sample_corridor(corridor, s), scene.laws)[j].key.volume,
        ),
{
    let own = disc_walk::sample_corridor(corridor, s);
    locality::lemma_crossing_key(own, scene.laws, j);
    let key = ray::crossings_of(own, scene.laws)[j].key;
    let h = choose|h: int| 0 <= h < own.hits@.len() && (#[trigger] own.hits@[h]).spec_key() == key;
    assert(scene::is_written(scene, corridor.samples@[s].hits@[h].volume));
}

/// A sample that cannot be walked blames what it meets.
proof fn lemma_sample_error(scene: Scene, corridor: DiscCorridor, factors: Map<Entity, F32>, s: int, error: WalkError)
    requires
        is_all_written(scene, corridor),
        0 <= s < corridor.samples@.len(),
        disc_walk::sample_error(corridor, scene.laws, factors, s, error),
    ensures
        findings::blamed(error) matches Some(volume) ==> scene::is_written(scene, volume),
{
    let own = disc_walk::sample_corridor(corridor, s);
    let toggles = ray::crossings_of(own, scene.laws);
    let seeds = own.initial_presence@;
    let n = toggles.len() as int;
    assert(corridor.samples@[s].initial_presence@.len() == 0);
    if ray::malformed(own, s as usize, error) {
    } else if exists|i: int|
        {
            &&& 0 <= i < toggles.len()
            &&& field::sound(toggles, seeds, factors, i)
            &&& (#[trigger] field::fault_at(toggles, seeds, factors, i)) matches Some(fault) && field::reports(
                error,
                fault,
                s as usize,
                toggles[i],
            )
        } {
        let i = choose|i: int|
            {
                &&& 0 <= i < toggles.len()
                &&& field::sound(toggles, seeds, factors, i)
                &&& (#[trigger] field::fault_at(toggles, seeds, factors, i)) matches Some(fault) && field::reports(
                    error,
                    fault,
                    s as usize,
                    toggles[i],
                )
            };
        lemma_crossed(scene, corridor, s, i);
    } else if let WalkError::IncompleteCorridor { sample: _, open, length: _ } = error {
        if open@.len() > 0 {
            let key = open@[0];
            assert(open@.contains(key));
            let j = lemma_open(toggles, seeds, n, key);
            lemma_crossed(scene, corridor, s, j);
        }
    }
}

/// The parts of a probe, or the error that stops it, speak of volumes that are written.
proof fn lemma_parts(
    scene: Scene,
    ray: FuzzRay,
    radius: F32,
    result: Result<(DiscCorridor, VolumeTable), WalkError>,
)
    requires
        scene.wf(),
        scene::are_parts(result, scene, ray, radius),
    ensures
        match result {
            Ok((corridor, _)) => is_all_written(scene, corridor),
            Err(error) => findings::blamed(error) matches Some(volume) ==> scene::is_written(scene, volume),
        },
{
    if let Some(frame) = scene::frame_of(ray) {
        match result {
            Ok((corridor, _)) => {
                lemma_collected(scene, ray, frame, radius, corridor);
            },
            Err(error) => {
                if scene::is_collected(Err(error), scene, ray, frame, radius) {
                    lemma_refused(scene, ray, frame, radius, error);
                } else {
                    let corridor = choose|corridor: DiscCorridor| #[trigger]
                        scene::is_collected(Ok(corridor), scene, ray, frame, radius) && resolve::is_known(
                            Err(error),
                            corridor,
                            scene.factors@,
                        );
                    lemma_collected(scene, ray, frame, radius, corridor);
                    lemma_unknown(scene, corridor, error);
                }
            },
        }
    }
}

/// A table that cannot be made blames a volume that is named.
proof fn lemma_unknown(scene: Scene, corridor: DiscCorridor, error: WalkError)
    requires
        is_all_written(scene, corridor),
        resolve::is_known(Err(error), corridor, scene.factors@),
    ensures
        findings::blamed(error) matches Some(volume) ==> scene::is_written(scene, volume),
{
    let n = corridor.samples@.len() as int;
    let named = resolve::mentions_upto(corridor.samples@, n);
    lemma_entries(named, scene.factors@, named.len() as int);
    let volume = match resolve::entries_of(named, scene.factors@, named.len() as int) {
        Err(volume) => volume,
        Ok(entries) => {
            let i = choose|i: int|
                {
                    &&& 0 <= i < entries.len()
                    &&& !table::legal_factor((#[trigger] entries[i]).1)
                    &&& forall|j: int| 0 <= j < i ==> table::legal_factor((#[trigger] entries[j]).1)
                    &&& error == (WalkError::BadFactor { volume: entries[i].0, factor: entries[i].1 })
                };
            entries[i].0
        },
    };
    assert(named.contains(volume));
    let k = choose|k: int| 0 <= k < named.len() && named[k] == volume;
    lemma_mentioned(scene, corridor, n, k);
}

/// Every volume that a probe presents can be written down, and so can the one that it blames where
/// it fails: a report never lacks a name.
pub proof fn law_a_probe_speaks_of_what_is_written(
    result: Result<DiscWalk, WalkError>,
    scene: Scene,
    ray: FuzzRay,
    radius: F32,
)
    requires
        scene.wf(),
        scene::is_probe(result, scene, ray, radius),
    ensures
        match result {
            Ok(walk) => forall|s: int, i: int|
                0 <= s < walk.walks@.len() && 0 <= i < walk.walks@[s].presence@.len() ==> scene::is_written(
                    scene,
                    (#[trigger] walk.walks@[s].presence@[i]).entity,
                ),
            Err(error) => findings::blamed(error) matches Some(volume) ==> scene::is_written(scene, volume),
        },
{
    if result matches Err(error) && scene::are_parts(Err(error), scene, ray, radius) {
        lemma_parts(scene, ray, radius, Err(result->Err_0));
    } else {
        let (corridor, volumes) = choose|corridor: DiscCorridor, volumes: VolumeTable|
            {
                &&& #[trigger] scene::are_parts(Ok((corridor, volumes)), scene, ray, radius)
                &&& match result {
                    Ok(walk) => disc_walk::is_disc_walk(walk, corridor, scene.laws, volumes.spec_rows(), volumes@)
                        && walk.wf() && walk.walks@.len() > 0,
                    Err(error) => disc_walk::disc_error(corridor, scene.laws, volumes.spec_rows(), volumes@, error),
                }
            };
        lemma_parts(scene, ray, radius, Ok((corridor, volumes)));
        match result {
            Ok(walk) => {
                lemma_presented(scene, corridor, walk, volumes.spec_rows(), volumes@);
            },
            Err(error) => {
                lemma_disc_error(scene, corridor, volumes.spec_rows(), volumes@, error);
            },
        }
    }
}

proof fn lemma_presented(
    scene: Scene,
    corridor: DiscCorridor,
    walk: DiscWalk,
    rows: Seq<(Entity, F32)>,
    factors: Map<Entity, F32>,
)
    requires
        is_all_written(scene, corridor),
        disc_walk::is_disc_walk(walk, corridor, scene.laws, rows, factors),
    ensures
        forall|s: int, i: int|
            0 <= s < walk.walks@.len() && 0 <= i < walk.walks@[s].presence@.len() ==> scene::is_written(
                scene,
                (#[trigger] walk.walks@[s].presence@[i]).entity,
            ),
{
    assert forall|s: int, i: int|
        0 <= s < walk.walks@.len() && 0 <= i < walk.walks@[s].presence@.len() implies scene::is_written(
        scene,
        (#[trigger] walk.walks@[s].presence@[i]).entity,
    ) by {
        let own = disc_walk::sample_corridor(corridor, s);
        let met = walk.walks@[s].presence@[i];
        assert(ray::is_walk(walk.walks@[s], own, scene.laws, rows, factors));
        let intervals = ray::intervals_of(own, scene.laws);
        assert(presence::volume_met(intervals, met.entity));
        let a = choose|a: int| 0 <= a < intervals.len() && (#[trigger] intervals[a]).key.volume == met.entity;
        locality::lemma_interval_key(own, scene.laws, a);
        let h = choose|h: int| 0 <= h < own.hits@.len() && (#[trigger] own.hits@[h]).spec_key() == intervals[a].key;
        assert(scene::is_written(scene, corridor.samples@[s].hits@[h].volume));
    }
}

proof fn lemma_disc_error(
    scene: Scene,
    corridor: DiscCorridor,
    rows: Seq<(Entity, F32)>,
    factors: Map<Entity, F32>,
    error: WalkError,
)
    requires
        is_all_written(scene, corridor),
        disc_walk::disc_error(corridor, scene.laws, rows, factors, error),
    ensures
        findings::blamed(error) matches Some(volume) ==> scene::is_written(scene, volume),
{
    let laws = scene.laws;
    if exists|i: int|
        {
            &&& 0 <= i < corridor.samples@.len()
            &&& !#[trigger] disc_walk::walkable(corridor, laws, factors, i)
            &&& disc_walk::sample_error(corridor, laws, factors, i, error)
        } {
        let i = choose|i: int|
            {
                &&& 0 <= i < corridor.samples@.len()
                &&& !#[trigger] disc_walk::walkable(corridor, laws, factors, i)
                &&& disc_walk::sample_error(corridor, laws, factors, i, error)
            };
        lemma_sample_error(scene, corridor, factors, i, error);
    } else {
        assert(!(error is BadCorridor) ==> error is DegenerateEntryNormal);
    }
}

} // verus!
