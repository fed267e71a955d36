//! A ray at a scene has one corridor: collecting it again gives the same.

use crate::ballistics::collect;
use crate::ballistics::collect::{BallisticSurfaces, Candidate, Corridor, LocalRay, TriMesh};
use crate::ballistics::fuzz::rays::FuzzRay;
use crate::ballistics::fuzz::scene;
use crate::ballistics::fuzz::scene::Scene;
use crate::ballistics::resolve;
use crate::ballistics::resolve::CorridorRequest;
use crate::ballistics::walk::determined;
use crate::ballistics::walk::disc::{DiscCorridor, DiscFrame, SampleCorridor};
use crate::ballistics::walk::one_disc;
use crate::ballistics::walk::table;
use crate::ballistics::walk::table::VolumeTable;
use crate::ballistics::walk::vocabulary::{Entity, FaceHit, ShellKey, WalkError, WalkLaws};
use crate::float::F32;
use crate::vector::{Quat, Vec3};
use vstd::prelude::*;

verus! {

/// Two corridors to collect along are the same.
spec fn same_ray(a: Corridor, b: Corridor) -> bool {
    &&& a.anchor == b.anchor
    &&& a.origin == b.origin
    &&& a.axis == b.axis
    &&& a.length == b.length
    &&& a.seeded@ == b.seeded@
    &&& *a.laws == *b.laws
}

proof fn lemma_over_triangles(
    before: Seq<FaceHit>,
    a: Corridor,
    b: Corridor,
    local: LocalRay,
    candidate: (Entity, Entity),
    rotation: Quat,
    mesh: TriMesh,
    surfaces: BallisticSurfaces,
    n: int,
)
    requires
        same_ray(a, b),
    ensures
        collect::over_triangles(before, a, local, candidate, rotation, mesh, surfaces, n) == collect::over_triangles(
            before,
            b,
            local,
            candidate,
            rotation,
            mesh,
            surfaces,
            n,
        ),
    decreases n,
{
    if n > 0 {
        lemma_over_triangles(before, a, b, local, candidate, rotation, mesh, surfaces, n - 1);
    }
}

proof fn lemma_over_candidates(before: Seq<FaceHit>, a: Corridor, b: Corridor, candidates: Seq<Candidate>, n: int)
    requires
        same_ray(a, b),
    ensures
        collect::over_candidates(before, a, candidates, n) == collect::over_candidates(before, b, candidates, n),
    decreases n,
{
    if n > 0 {
        lemma_over_candidates(before, a, b, candidates, n - 1);
        let hits = collect::over_candidates(before, a, candidates, n - 1).hits;
        let candidate = candidates[n - 1];
        if let Some(collider) = candidate.collider {
            match collider.shape {
                collect::Shape::TriMesh(mesh, surfaces) => {
                    if let Some(surfaces) = surfaces {
                        lemma_over_triangles(
                            hits,
                            a,
                            b,
                            collect::localized(a, collider.position, collider.rotation),
                            (candidate.node, candidate.primitive),
                            collider.rotation,
                            *mesh,
                            *surfaces,
                            mesh.triangles@.len() as int,
                        );
                    }
                },
                collect::Shape::Convex(casts) => {},
            }
        }
    }
}

/// Two requests ask for the same, in open air.
spec fn same_request(p: CorridorRequest, q: CorridorRequest) -> bool {
    &&& p.anchor == q.anchor
    &&& p.origin == q.origin
    &&& p.axis == q.axis
    &&& p.frame == q.frame
    &&& p.radius == q.radius
    &&& p.length == q.length
    &&& p.seeds@.len() == 0
    &&& q.seeds@.len() == 0
}

proof fn lemma_gathered(
    p: CorridorRequest,
    q: CorridorRequest,
    offset: Vec3,
    x: &Vec<ShellKey>,
    y: &Vec<ShellKey>,
    laws: &WalkLaws,
    candidates: Seq<Candidate>,
)
    requires
        same_request(p, q),
        x@ == y@,
    ensures
        resolve::gathered_at(p, offset, x, laws, candidates) == resolve::gathered_at(q, offset, y, laws, candidates),
{
    let a = Corridor {
        anchor: p.anchor,
        origin: p.origin.sum(offset),
        axis: p.axis,
        length: p.length,
        seeded: x,
        laws,
    };
    let b = Corridor {
        anchor: q.anchor,
        origin: q.origin.sum(offset),
        axis: q.axis,
        length: q.length,
        seeded: y,
        laws,
    };
    lemma_over_candidates(Seq::empty(), a, b, candidates, candidates.len() as int);
}

/// A sample that was collected is not one that was refused.
proof fn lemma_not_both(
    error: WalkError,
    samples: Seq<SampleCorridor>,
    seeded: &Vec<ShellKey>,
    p: CorridorRequest,
    others: Seq<SampleCorridor>,
    q: CorridorRequest,
    turns: Seq<(F32, F32)>,
    answers: Seq<Seq<Candidate>>,
    laws: WalkLaws,
)
    requires
        same_request(p, q),
        resolve::is_refused(error, samples, seeded, p, turns, laws, answers),
        resolve::is_started(others, q, turns, laws, answers),
    ensures
        others.len() <= samples.len(),
{
    let i = samples.len() as int;
    if i < others.len() {
        let sample = others[i];
        assert(resolve::is_sample(
            sample,
            q,
            resolve::offset_of(q, turns, i),
            resolve::seeded_at(q, i),
            laws,
            answers[i],
        ));
        lemma_gathered(
            p,
            q,
            resolve::offset_of(p, turns, i),
            seeded,
            &sample.initial_presence,
            &laws,
            answers[i],
        );
    }
}

proof fn lemma_one_corridor(
    a: Result<DiscCorridor, WalkError>,
    b: Result<DiscCorridor, WalkError>,
    p: CorridorRequest,
    q: CorridorRequest,
    turns: Seq<(F32, F32)>,
    answers: Seq<Seq<Candidate>>,
    laws: WalkLaws,
)
    requires
        same_request(p, q),
        answers.len() == resolve::sample_count(p, turns),
        resolve::is_corridor(a, p, turns, answers, laws),
        resolve::is_corridor(b, q, turns, answers, laws),
    ensures
        match (a, b) {
            (Ok(c), Ok(d)) => one_disc::same_disc(c, d),
            (Err(x), Err(y)) => determined::same_error(x, y),
            _ => false,
        },
{
    match (a, b) {
        (Ok(c), Ok(d)) => {
            assert forall|i: int| 0 <= i < c.samples@.len() implies one_disc::same_sample(#[trigger] c.samples@[i], d.samples@[i]) by {
                let (x, y) = (c.samples@[i], d.samples@[i]);
                let offset = resolve::offset_of(p, turns, i);
                assert(resolve::is_sample(x, p, offset, resolve::seeded_at(p, i), laws, answers[i]));
                assert(resolve::is_sample(y, q, offset, resolve::seeded_at(q, i), laws, answers[i]));
                lemma_gathered(p, q, offset, &x.initial_presence, &y.initial_presence, &laws, answers[i]);
            }
        },
        (Err(x), Err(y)) => {
            let (s, u) = choose|s: Seq<SampleCorridor>, u: &Vec<ShellKey>| #[trigger]
                resolve::is_refused(x, s, u, p, turns, laws, answers);
            let (t, v) = choose|t: Seq<SampleCorridor>, v: &Vec<ShellKey>| #[trigger]
                resolve::is_refused(y, t, v, q, turns, laws, answers);
            lemma_not_both(x, s, u, p, t, q, turns, answers, laws);
            lemma_not_both(y, t, v, q, s, p, turns, answers, laws);
            let i = s.len() as int;
            lemma_gathered(p, q, resolve::offset_of(p, turns, i), u, v, &laws, answers[i]);
        },
        (Err(x), Ok(d)) => {
            let (s, u) = choose|s: Seq<SampleCorridor>, u: &Vec<ShellKey>| #[trigger]
                resolve::is_refused(x, s, u, p, turns, laws, answers);
            lemma_not_both(x, s, u, p, d.samples@, q, turns, answers, laws);
        },
        (Ok(c), Err(y)) => {
            let (t, v) = choose|t: Seq<SampleCorridor>, v: &Vec<ShellKey>| #[trigger]
                resolve::is_refused(y, t, v, q, turns, laws, answers);
            lemma_not_both(y, t, v, q, c.samples@, p, turns, answers, laws);
        },
    }
}

proof fn lemma_one_collection(
    a: Result<DiscCorridor, WalkError>,
    b: Result<DiscCorridor, WalkError>,
    scene: Scene,
    ray: FuzzRay,
    frame: DiscFrame,
    radius: F32,
)
    requires
        scene::is_collected(a, scene, ray, frame, radius),
        scene::is_collected(b, scene, ray, frame, radius),
    ensures
        match (a, b) {
            (Ok(c), Ok(d)) => one_disc::same_disc(c, d),
            (Err(x), Err(y)) => determined::same_error(x, y),
            _ => false,
        },
{
    let p = choose|request: CorridorRequest| #[trigger]
        scene::is_probe_request(request, ray, frame, radius) && resolve::is_corridor(
            a,
            request,
            scene.ring@,
            scene::answers_of(scene, request),
            scene.laws,
        );
    let q = choose|request: CorridorRequest| #[trigger]
        scene::is_probe_request(request, ray, frame, radius) && resolve::is_corridor(
            b,
            request,
            scene.ring@,
            scene::answers_of(scene, request),
            scene.laws,
        );
    assert(scene::answers_of(scene, p) =~= scene::answers_of(scene, q));
    lemma_one_corridor(a, b, p, q, scene.ring@, scene::answers_of(scene, p), scene.laws);
}

proof fn lemma_same_mentions(a: Seq<SampleCorridor>, b: Seq<SampleCorridor>, n: int)
    requires
        0 <= n <= a.len(),
        a.len() == b.len(),
        forall|i: int| 0 <= i < a.len() ==> one_disc::same_sample(#[trigger] a[i], b[i]),
    ensures
        resolve::mentions_upto(a, n) == resolve::mentions_upto(b, n),
    decreases n,
{
    if n > 0 {
        lemma_same_mentions(a, b, n - 1);
        assert(one_disc::same_sample(a[n - 1], b[n - 1]));
    }
}

/// A row of an ordered table is one of any other that maps the same.
proof fn lemma_row_shared(a: Seq<(Entity, F32)>, b: Seq<(Entity, F32)>, row: (Entity, F32))
    requires
        table::ordered(a),
        table::ordered(b),
        table::tabled(a) == table::tabled(b),
        a.contains(row),
    ensures
        b.contains(row),
{
    table::lemma_tabled(a);
    table::lemma_tabled(b);
    let i = choose|i: int| 0 <= i < a.len() && a[i] == row;
    assert(a[i].0 == row.0);
    assert(table::row_of(a, row.0));
    assert(table::row_of(b, row.0));
    let j = choose|j: int| 0 <= j < b.len() && (#[trigger] b[j]).0 == row.0;
    assert(b[j] == row);
}

/// Ordered tables that map the same are row by row the same.
pub(crate) proof fn lemma_one_row_list(a: Seq<(Entity, F32)>, b: Seq<(Entity, F32)>)
    requires
        table::ordered(a),
        table::ordered(b),
        table::tabled(a) == table::tabled(b),
    ensures
        a == b,
{
    let less = |x: (Entity, F32), y: (Entity, F32)| x.0.id < y.0.id;
    assert forall|row: (Entity, F32)| #[trigger] a.contains(row) <==> b.contains(row) by {
        if a.contains(row) {
            lemma_row_shared(a, b, row);
        }
        if b.contains(row) {
            lemma_row_shared(b, a, row);
        }
    }
    determined::lemma_one_list(a, b, less);
}

/// A list of factors makes one table, or has one first factor that is not legal.
pub(crate) proof fn lemma_one_table(
    a: Result<VolumeTable, WalkError>,
    b: Result<VolumeTable, WalkError>,
    entries: Seq<(Entity, F32)>,
)
    requires
        table::is_table(a, entries),
        table::is_table(b, entries),
    ensures
        match (a, b) {
            (Ok(x), Ok(y)) => x@ == y@ && x.spec_rows() == y.spec_rows(),
            (Err(x), Err(y)) => x == y,
            _ => false,
        },
{
    match (a, b) {
        (Ok(x), Ok(y)) => {
            lemma_one_row_list(x.spec_rows(), y.spec_rows());
        },
        (Err(x), Err(y)) => {
            let i = choose|i: int|
                {
                    &&& 0 <= i < entries.len()
                    &&& !table::legal_factor((#[trigger] entries[i]).1)
                    &&& forall|j: int| 0 <= j < i ==> table::legal_factor((#[trigger] entries[j]).1)
                    &&& x == (WalkError::BadFactor { volume: entries[i].0, factor: entries[i].1 })
                };
            let k = choose|i: int|
                {
                    &&& 0 <= i < entries.len()
                    &&& !table::legal_factor((#[trigger] entries[i]).1)
                    &&& forall|j: int| 0 <= j < i ==> table::legal_factor((#[trigger] entries[j]).1)
                    &&& y == (WalkError::BadFactor { volume: entries[i].0, factor: entries[i].1 })
                };
            assert(i == k);
        },
        _ => {},
    }
}

proof fn lemma_one_known(
    a: Result<VolumeTable, WalkError>,
    b: Result<VolumeTable, WalkError>,
    c: DiscCorridor,
    d: DiscCorridor,
    factors: Seq<(Entity, F32)>,
)
    requires
        one_disc::same_disc(c, d),
        resolve::is_known(a, c, factors),
        resolve::is_known(b, d, factors),
    ensures
        match (a, b) {
            (Ok(x), Ok(y)) => x@ == y@ && x.spec_rows() == y.spec_rows(),
            (Err(x), Err(y)) => x == y,
            _ => false,
        },
{
    lemma_same_mentions(c.samples@, d.samples@, c.samples@.len() as int);
    let named = resolve::mentions_upto(c.samples@, c.samples@.len() as int);
    if let Ok(entries) = resolve::entries_of(named, factors, named.len() as int) {
        lemma_one_table(a, b, entries);
    }
}

/// A ray at a scene has one corridor and one table of its volumes, or fails in one way.
pub proof fn law_a_ray_has_one_corridor(
    a: Result<(DiscCorridor, VolumeTable), WalkError>,
    b: Result<(DiscCorridor, VolumeTable), WalkError>,
    scene: Scene,
    ray: FuzzRay,
    radius: F32,
)
    requires
        scene::are_parts(a, scene, ray, radius),
        scene::are_parts(b, scene, ray, radius),
    ensures
        match (a, b) {
            (Ok((c, x)), Ok((d, y))) => one_disc::same_disc(c, d) && x@ == y@ && x.spec_rows() == y.spec_rows(),
            (Err(x), Err(y)) => determined::same_error(x, y),
            _ => false,
        },
{
    if let Some(frame) = scene::frame_of(ray) {
        match (a, b) {
            (Ok((c, x)), Ok((d, y))) => {
                lemma_one_collection(Ok(c), Ok(d), scene, ray, frame, radius);
                lemma_one_known(Ok(x), Ok(y), c, d, scene.factors@);
            },
            (Err(x), Err(y)) => {
                lemma_one_failure(x, y, scene, ray, frame, radius);
            },
            (Ok((c, t)), Err(y)) => {
                lemma_no_failure(c, t, y, scene, ray, frame, radius);
            },
            (Err(x), Ok((d, t))) => {
                lemma_no_failure(d, t, x, scene, ray, frame, radius);
            },
        }
    }
}

/// The failure of a ray's parts.
spec fn fails(error: WalkError, scene: Scene, ray: FuzzRay, frame: DiscFrame, radius: F32) -> bool {
    ||| scene::is_collected(Err(error), scene, ray, frame, radius)
    ||| exists|corridor: DiscCorridor| #[trigger]
        scene::is_collected(Ok(corridor), scene, ray, frame, radius) && resolve::is_known(
            Err(error),
            corridor,
            scene.factors@,
        )
}

proof fn lemma_one_failure(x: WalkError, y: WalkError, scene: Scene, ray: FuzzRay, frame: DiscFrame, radius: F32)
    requires
        fails(x, scene, ray, frame, radius),
        fails(y, scene, ray, frame, radius),
    ensures
        determined::same_error(x, y),
{
    if scene::is_collected(Err(x), scene, ray, frame, radius) {
        if scene::is_collected(Err(y), scene, ray, frame, radius) {
            lemma_one_collection(Err(x), Err(y), scene, ray, frame, radius);
        } else {
            let d = choose|corridor: DiscCorridor| #[trigger]
                scene::is_collected(Ok(corridor), scene, ray, frame, radius) && resolve::is_known(
                    Err(y),
                    corridor,
                    scene.factors@,
                );
            lemma_one_collection(Err(x), Ok(d), scene, ray, frame, radius);
        }
    } else {
        let c = choose|corridor: DiscCorridor| #[trigger]
            scene::is_collected(Ok(corridor), scene, ray, frame, radius) && resolve::is_known(
                Err(x),
                corridor,
                scene.factors@,
            );
        if scene::is_collected(Err(y), scene, ray, frame, radius) {
            lemma_one_collection(Ok(c), Err(y), scene, ray, frame, radius);
        } else {
            let d = choose|corridor: DiscCorridor| #[trigger]
                scene::is_collected(Ok(corridor), scene, ray, frame, radius) && resolve::is_known(
                    Err(y),
                    corridor,
                    scene.factors@,
                );
            lemma_one_collection(Ok(c), Ok(d), scene, ray, frame, radius);
            lemma_one_known(Err(x), Err(y), c, d, scene.factors@);
        }
    }
}

proof fn lemma_no_failure(
    c: DiscCorridor,
    volumes: VolumeTable,
    y: WalkError,
    scene: Scene,
    ray: FuzzRay,
    frame: DiscFrame,
    radius: F32,
)
    requires
        scene::is_collected(Ok(c), scene, ray, frame, radius),
        resolve::is_known(Ok(volumes), c, scene.factors@),
    ensures
        !fails(y, scene, ray, frame, radius),
{
    if fails(y, scene, ray, frame, radius) {
        if scene::is_collected(Err(y), scene, ray, frame, radius) {
            lemma_one_collection(Ok(c), Err(y), scene, ray, frame, radius);
        } else {
            let d = choose|corridor: DiscCorridor| #[trigger]
                scene::is_collected(Ok(corridor), scene, ray, frame, radius) && resolve::is_known(
                    Err(y),
                    corridor,
                    scene.factors@,
                );
            lemma_one_collection(Ok(c), Ok(d), scene, ray, frame, radius);
            lemma_one_known(Ok(volumes), Err(y), c, d, scene.factors@);
        }
    }
}

} // verus!
