//! A whole disc, walked: every sample, and the crossings their runs make up.

use crate::ballistics::walk::association;
use crate::ballistics::walk::association::{label_runs, list_nodes};
use crate::ballistics::walk::disc::{DiscCorridor, DiscEvent, DiscWalk};
use crate::ballistics::walk::event;
use crate::ballistics::walk::event::build_event;
use crate::ballistics::walk::extent;
use crate::ballistics::walk::extent::Touch;
use crate::ballistics::walk::field;
use crate::ballistics::walk::ray;
use crate::ballistics::walk::ray::{walk_ray, RayWalk};
use crate::ballistics::walk::table::VolumeTable;
use crate::ballistics::walk::vocabulary::{Entity, FaceHit, RayCorridor, ShellKey, WalkError, WalkLaws};
use crate::float::F32;
use crate::vector::Vec3;
use vstd::prelude::*;

verus! {

/// The corridor of one sample ray.
pub open spec fn sample_corridor(corridor: DiscCorridor, sample: int) -> RayCorridor {
    RayCorridor {
        anchor: corridor.anchor,
        origin: extent::sample_base(corridor, sample),
        axis: corridor.axis,
        length: corridor.length,
        initial_presence: corridor.samples@[sample].initial_presence,
        hits: corridor.samples@[sample].hits,
    }
}

/// The sample's ray can be walked.
pub open spec fn walkable(corridor: DiscCorridor, laws: WalkLaws, factors: Map<Entity, F32>, sample: int) -> bool {
    let ray = sample_corridor(corridor, sample);
    ray::has_form(ray) && ray::pairs(ray, laws, factors)
}

/// The error says why the sample's ray cannot be walked.
pub open spec fn sample_error(
    corridor: DiscCorridor,
    laws: WalkLaws,
    factors: Map<Entity, F32>,
    sample: int,
    error: WalkError,
) -> bool {
    let ray = sample_corridor(corridor, sample);
    ||| ray::malformed(ray, sample as usize, error)
    ||| ray::has_form(ray) && field::first_error(
        sample as usize,
        corridor.length,
        ray::crossings_of(ray, laws),
        ray.initial_presence@,
        factors,
        error,
    )
}

/// The nodes among the first `n` that bear the label.
pub open spec fn members_of(nodes: Seq<(usize, usize)>, labels: Seq<usize>, root: usize, n: int) -> Seq<(usize, usize)>
    decreases n,
{
    if n <= 0 {
        Seq::empty()
    } else if labels[n - 1] == root {
        members_of(nodes, labels, root, n - 1).push(nodes[n - 1])
    } else {
        members_of(nodes, labels, root, n - 1)
    }
}

/// The runs of the first `n` samples, as pairs of sample and run.
pub open spec fn flattened(touches: Seq<Touch>, n: int) -> Seq<(usize, usize)>
    decreases n,
{
    if n <= 0 {
        Seq::empty()
    } else {
        flattened(touches, n - 1) + touches[n - 1].runs@.map_values(|run: usize| (touches[n - 1].sample, run))
    }
}

/// The samples and runs that bear one label, sample by sample.
pub open spec fn is_cluster(
    touches: Seq<Touch>,
    nodes: Seq<(usize, usize)>,
    labels: Seq<usize>,
    root: usize,
) -> bool {
    &&& forall|i: int, j: int| 0 <= i < j < touches.len() ==> (#[trigger] touches[i]).sample < (#[trigger] touches[j]).sample
    &&& forall|i: int| 0 <= i < touches.len() ==> (#[trigger] touches[i]).runs@.len() > 0
    &&& flattened(touches, touches.len() as int) == members_of(nodes, labels, root, nodes.len() as int)
}

/// The labels in use among the first `n`, in order.
pub open spec fn roots_of(labels: Seq<usize>, n: int) -> Seq<usize>
    decreases n,
{
    if n <= 0 {
        Seq::empty()
    } else if labels[n - 1] == n - 1 {
        roots_of(labels, n - 1).push(labels[n - 1])
    } else {
        roots_of(labels, n - 1)
    }
}

/// The event is the crossing of one label.
#[verifier::opaque]
pub open spec fn is_crossing(
    event: DiscEvent,
    corridor: DiscCorridor,
    walks: Seq<RayWalk>,
    nodes: Seq<(usize, usize)>,
    labels: Seq<usize>,
    root: usize,
) -> bool {
    exists|touches: Seq<Touch>| #[trigger]
        is_cluster(touches, nodes, labels, root) && event::is_event(event, corridor, walks, touches)
}

/// The crossing of one label has no entry normal.
pub open spec fn is_degenerate_crossing(
    walks: Seq<RayWalk>,
    nodes: Seq<(usize, usize)>,
    labels: Seq<usize>,
    root: usize,
    k: nat,
    error: WalkError,
) -> bool {
    exists|touches: Seq<Touch>|
        {
            &&& #[trigger] is_cluster(touches, nodes, labels, root)
            &&& event::is_degenerate(walks, touches)
            &&& error == (WalkError::DegenerateEntryNormal { coverage: extent::share_of(touches.len(), k) })
        }
}

/// `a` stands before `b`: by start, by end, then by the order of their first runs.
pub open spec fn event_before(a: DiscEvent, ra: int, b: DiscEvent, rb: int) -> bool {
    ||| a.start.rank() < b.start.rank()
    ||| a.start.rank() == b.start.rank() && (a.end.rank() < b.end.rank() || (a.end.rank() == b.end.rank() && ra < rb))
}

/// Each crossing of the first `n` labels once, in order; `ranks` says which is which.
pub open spec fn are_crossings(
    events: Seq<DiscEvent>,
    ranks: Seq<int>,
    corridor: DiscCorridor,
    walks: Seq<RayWalk>,
    nodes: Seq<(usize, usize)>,
    labels: Seq<usize>,
    n: int,
) -> bool {
    let roots = roots_of(labels, labels.len() as int);
    &&& events.len() == n
    &&& ranks.len() == n
    &&& forall|i: int|
        0 <= i < n ==> 0 <= #[trigger] ranks[i] < n && is_crossing(
            events[i],
            corridor,
            walks,
            nodes,
            labels,
            roots[ranks[i]],
        )
    &&& forall|i: int, j: int|
        0 <= i < j < n ==> ranks[i] != ranks[j] && event_before(
            #[trigger] events[i],
            ranks[i],
            #[trigger] events[j],
            ranks[j],
        )
}

/// The walk of a disc.
pub open spec fn is_disc_walk(
    walk: DiscWalk,
    corridor: DiscCorridor,
    laws: WalkLaws,
    rows: Seq<(Entity, F32)>,
    factors: Map<Entity, F32>,
) -> bool {
    let walks = walk.walks@;
    let nodes = association::nodes_upto(walks, walks.len() as int);
    &&& walk.axis == corridor.axis
    &&& walk.anchor == corridor.anchor
    &&& walk.origin == corridor.origin
    &&& walk.frame == corridor.frame
    &&& walk.radius == corridor.radius
    &&& walk.offsets@ == corridor.samples@.map_values(
        |sample: crate::ballistics::walk::disc::SampleCorridor| sample.offset,
    )
    &&& walks.len() == corridor.samples@.len()
    &&& forall|i: int|
        0 <= i < walks.len() ==> walkable(corridor, laws, factors, i) && ray::is_walk(
            #[trigger] walks[i],
            sample_corridor(corridor, i),
            laws,
            rows,
            factors,
        )
    &&& exists|labels: Seq<usize>, ranks: Seq<int>|
        {
            &&& labels.len() == nodes.len()
            &&& association::labels_chains(
                |a: int, b: int| association::linked(corridor, laws, walks, nodes, a, b),
                labels,
            )
            &&& #[trigger] are_crossings(
                walk.events@,
                ranks,
                corridor,
                walks,
                nodes,
                labels,
                roots_of(labels, labels.len() as int).len() as int,
            )
        }
}

/// Why a disc cannot be walked: it has no axis sample, a sample's ray cannot be
/// walked, or a crossing has no entry normal; the first of these that holds.
pub open spec fn disc_error(
    corridor: DiscCorridor,
    laws: WalkLaws,
    rows: Seq<(Entity, F32)>,
    factors: Map<Entity, F32>,
    error: WalkError,
) -> bool {
    if corridor.samples@.len() == 0 {
        error matches WalkError::BadCorridor { sample, reason } && sample == 0 && reason@
            == "a disc corridor needs at least the axis sample"@
    } else if !corridor.samples@[0].offset.equals(Vec3::zero()) {
        error matches WalkError::BadCorridor { sample, reason } && sample == 0 && reason@
            == "sample 0 must be the disc axis (zero lateral offset)"@
    } else {
        ||| exists|i: int|
            {
                &&& 0 <= i < corridor.samples@.len()
                &&& !#[trigger] walkable(corridor, laws, factors, i)
                &&& sample_error(corridor, laws, factors, i, error)
                &&& forall|j: int| 0 <= j < i ==> #[trigger] walkable(corridor, laws, factors, j)
            }
        ||| disc_degenerates(corridor, laws, rows, factors, error)
    }
}

/// Every sample can be walked, and the first crossing without an entry normal is reported.
pub open spec fn disc_degenerates(
    corridor: DiscCorridor,
    laws: WalkLaws,
    rows: Seq<(Entity, F32)>,
    factors: Map<Entity, F32>,
    error: WalkError,
) -> bool {
    &&& forall|j: int| 0 <= j < corridor.samples@.len() ==> #[trigger] walkable(corridor, laws, factors, j)
    &&& exists|walks: Seq<RayWalk>, labels: Seq<usize>, ranks: Seq<int>, events: Seq<DiscEvent>, i: int| #[trigger]
        degenerates_at(corridor, laws, rows, factors, walks, labels, ranks, events, i, error)
}

/// The samples' walks make up crossings of which the first `i` can be built and
/// the next has no entry normal.
pub open spec fn degenerates_at(
    corridor: DiscCorridor,
    laws: WalkLaws,
    rows: Seq<(Entity, F32)>,
    factors: Map<Entity, F32>,
    walks: Seq<RayWalk>,
    labels: Seq<usize>,
    ranks: Seq<int>,
    events: Seq<DiscEvent>,
    i: int,
    error: WalkError,
) -> bool {
    let nodes = association::nodes_upto(walks, walks.len() as int);
    let roots = roots_of(labels, labels.len() as int);
    &&& walks.len() == corridor.samples@.len()
    &&& forall|s: int|
        0 <= s < walks.len() ==> ray::is_walk(#[trigger] walks[s], sample_corridor(corridor, s), laws, rows, factors)
    &&& labels.len() == nodes.len()
    &&& association::labels_chains(|a: int, b: int| association::linked(corridor, laws, walks, nodes, a, b), labels)
    &&& 0 <= i < roots.len()
    &&& are_crossings(events, ranks, corridor, walks, nodes, labels, i)
    &&& is_degenerate_crossing(walks, nodes, labels, roots[i], corridor.samples@.len(), error)
}

fn copy_hits(hits: &Vec<FaceHit>) -> (copy: Vec<FaceHit>)
    ensures
        copy@ == hits@,
{
    let mut copy: Vec<FaceHit> = Vec::new();
    let mut i: usize = 0;
    while i < hits.len()
        invariant
            i <= hits.len(),
            copy@ == hits@.take(i as int),
        decreases hits.len() - i,
    {
        copy.push(hits[i]);
        assert(hits@.take(i + 1) =~= hits@.take(i as int).push(hits@[i as int]));
        i = i + 1;
    }
    assert(hits@.take(i as int) =~= hits@);
    copy
}

fn copy_keys(keys: &Vec<ShellKey>) -> (copy: Vec<ShellKey>)
    ensures
        copy@ == keys@,
{
    let mut copy: Vec<ShellKey> = Vec::new();
    let mut i: usize = 0;
    while i < keys.len()
        invariant
            i <= keys.len(),
            copy@ == keys@.take(i as int),
        decreases keys.len() - i,
    {
        copy.push(keys[i]);
        assert(keys@.take(i + 1) =~= keys@.take(i as int).push(keys@[i as int]));
        i = i + 1;
    }
    assert(keys@.take(i as int) =~= keys@);
    copy
}

/// A corridor matters to its walk by what it holds.
proof fn lemma_same_corridor(a: RayCorridor, b: RayCorridor, laws: WalkLaws)
    requires
        a.hits@ == b.hits@,
        a.initial_presence@ == b.initial_presence@,
        a.length == b.length,
        a.axis == b.axis,
    ensures
        ray::has_form(a) == ray::has_form(b),
        ray::crossings_of(a, laws) == ray::crossings_of(b, laws),
        ray::ordered_hits(a) == ray::ordered_hits(b),
{
}

/// Walks one sample.
fn walk_sample(corridor: &DiscCorridor, sample: usize, volumes: &VolumeTable, laws: &WalkLaws) -> (result: Result<
    RayWalk,
    WalkError,
>)
    requires
        sample < corridor.samples@.len(),
    ensures
        match result {
            Ok(walk) => walkable(*corridor, *laws, volumes@, sample as int) && ray::is_walk(
                walk,
                sample_corridor(*corridor, sample as int),
                *laws,
                volumes.spec_rows(),
                volumes@,
            ),
            Err(error) => !walkable(*corridor, *laws, volumes@, sample as int) && sample_error(
                *corridor,
                *laws,
                volumes@,
                sample as int,
                error,
            ),
        },
{
    let ray: RayCorridor = RayCorridor {
        anchor: corridor.anchor,
        origin: corridor.origin.plus(corridor.samples[sample].offset),
        axis: corridor.axis,
        length: corridor.length,
        initial_presence: copy_keys(&corridor.samples[sample].initial_presence),
        hits: copy_hits(&corridor.samples[sample].hits),
    };
    proof {
        lemma_same_corridor(ray, sample_corridor(*corridor, sample as int), *laws);
    }
    walk_ray(sample, &ray, volumes, laws)
}

proof fn lemma_nodes_rise(walks: Seq<RayWalk>, n: int, i: int)
    requires
        0 <= n <= walks.len() <= usize::MAX,
        0 < i < association::nodes_upto(walks, n).len(),
    ensures
        association::nodes_upto(walks, n)[i - 1].0 <= association::nodes_upto(walks, n)[i].0,
        association::nodes_upto(walks, n)[i].0 < n,
    decreases n,
{
    let rest = association::nodes_upto(walks, n - 1);
    let own = Seq::new(walks[n - 1].runs@.len(), |r: int| ((n - 1) as usize, r as usize));
    let all = association::nodes_upto(walks, n);
    assert(all == rest + own);
    if i < rest.len() {
        lemma_nodes_rise(walks, n - 1, i);
        assert(all[i] == rest[i] && all[i - 1] == rest[i - 1]);
    } else {
        assert(all[i] == own[i - rest.len()]);
        if i - 1 < rest.len() {
            assert(all[i - 1] == rest[i - 1]);
            lemma_node_below(walks, n - 1, i - 1);
        } else {
            assert(all[i - 1] == own[i - 1 - rest.len()]);
        }
    }
}

proof fn lemma_node_below(walks: Seq<RayWalk>, n: int, i: int)
    requires
        0 <= n <= walks.len() <= usize::MAX,
        0 <= i < association::nodes_upto(walks, n).len(),
    ensures
        association::nodes_upto(walks, n)[i].0 < n,
    decreases n,
{
    let rest = association::nodes_upto(walks, n - 1);
    if i < rest.len() {
        lemma_node_below(walks, n - 1, i);
        assert(association::nodes_upto(walks, n)[i] == rest[i]);
    }
}

/// Gathers the runs of one label, sample by sample.
fn gather_cluster(
    corridor: &DiscCorridor,
    walks: &Vec<RayWalk>,
    nodes: &Vec<(usize, usize)>,
    labels: &Vec<usize>,
    root: usize,
) -> (touches: Vec<Touch>)
    requires
        labels@.len() == nodes@.len(),
        nodes@ == association::nodes_upto(walks@, walks@.len() as int),
        association::nodes_fit(nodes@, *corridor, walks@),
    ensures
        is_cluster(touches@, nodes@, labels@, root),
        extent::touches_fit(touches@, *corridor, walks@),
{
    let mut touches: Vec<Touch> = Vec::new();
    let mut sample: usize = 0;
    let mut runs: Vec<usize> = Vec::new();
    let mut i: usize = 0;
    let total: usize = walks.len();
    while i < nodes.len()
        invariant
            i <= nodes.len(),
            total == walks@.len(),
            labels@.len() == nodes@.len(),
            nodes@ == association::nodes_upto(walks@, walks@.len() as int),
            association::nodes_fit(nodes@, *corridor, walks@),
            forall|a: int, b: int|
                0 <= a < b < touches@.len() ==> (#[trigger] touches@[a]).sample < (#[trigger] touches@[b]).sample,
            extent::touches_fit(touches@, *corridor, walks@),
            runs@.len() > 0 ==> sample < walks@.len() && forall|a: int|
                0 <= a < touches@.len() ==> (#[trigger] touches@[a]).sample < sample,
            runs@.len() > 0 ==> i > 0 && sample <= nodes@[i - 1].0,
            runs@.len() == 0 ==> touches@.len() == 0,
            forall|r: int| 0 <= r < runs@.len() ==> (#[trigger] runs@[r]) < walks@[sample as int].runs@.len(),
            flattened(touches@, touches@.len() as int) + runs@.map_values(|run: usize| (sample, run)) == members_of(
                nodes@,
                labels@,
                root,
                i as int,
            ),
        decreases nodes.len() - i,
    {
        proof {
            if i > 0 {
                lemma_nodes_rise(walks@, walks@.len() as int, i as int);
            }
        }
        if labels[i] == root {
            let (node_sample, node_run) = nodes[i];
            assert(nodes@[i as int].0 < walks@.len());
            let ghost before = flattened(touches@, touches@.len() as int);
            let ghost own = runs@.map_values(|run: usize| (sample, run));
            let ghost members = members_of(nodes@, labels@, root, i as int);
            if runs.len() > 0 && node_sample == sample {
                runs.push(node_run);
                assert(runs@.map_values(|run: usize| (sample, run)) =~= own.push((sample, node_run)));
                assert(before + own.push((sample, node_run)) =~= (before + own).push((sample, node_run)));
            } else {
                if runs.len() > 0 {
                    let ghost old_touches = touches@;
                    let ghost old_sample = sample;
                    touches.push(Touch { sample, runs });
                    proof {
                        lemma_flattened_prefix(old_touches, touches@, old_touches.len() as int);
                        assert(touches@.last().runs@.map_values(|run: usize| (touches@[touches@.len() - 1].sample, run))
                            =~= own);
                        assert(flattened(touches@, touches@.len() as int) =~= before + own);
                        assert(touches@[touches@.len() - 1].sample == old_sample);
                    }
                } else {
                    assert(before + own =~= before);
                }
                sample = node_sample;
                runs = Vec::new();
                runs.push(node_run);
                assert(runs@.map_values(|run: usize| (sample, run)) =~= seq![(sample, node_run)]);
                assert(flattened(touches@, touches@.len() as int) + seq![(sample, node_run)] =~= flattened(
                    touches@,
                    touches@.len() as int,
                ).push((sample, node_run)));
            }
        }
        i = i + 1;
    }
    if runs.len() > 0 {
        let ghost old_touches = touches@;
        let ghost own = runs@.map_values(|run: usize| (sample, run));
        touches.push(Touch { sample, runs });
        proof {
            lemma_flattened_prefix(old_touches, touches@, old_touches.len() as int);
            assert(touches@.last().runs@.map_values(|run: usize| (touches@[touches@.len() - 1].sample, run)) =~= own);
        }
    } else {
        assert(flattened(touches@, touches@.len() as int) + runs@.map_values(|run: usize| (sample, run)) =~= flattened(
            touches@,
            touches@.len() as int,
        ));
    }
    touches
}

proof fn lemma_flattened_prefix(a: Seq<Touch>, b: Seq<Touch>, n: int)
    requires
        0 <= n <= a.len() <= b.len(),
        forall|i: int| 0 <= i < a.len() ==> #[trigger] a[i] == b[i],
    ensures
        flattened(a, n) == flattened(b, n),
    decreases n,
{
    if n > 0 {
        lemma_flattened_prefix(a, b, n - 1);
        assert(a[n - 1] == b[n - 1]);
    }
}

/// Puts a crossing where it belongs among those before it.
fn place_event(
    events: &mut Vec<DiscEvent>,
    event: DiscEvent,
    Ghost(ranks): Ghost<Seq<int>>,
    Ghost(corridor): Ghost<DiscCorridor>,
    Ghost(walks): Ghost<Seq<RayWalk>>,
    Ghost(nodes): Ghost<Seq<(usize, usize)>>,
    Ghost(labels): Ghost<Seq<usize>>,
    Ghost(n): Ghost<int>,
) -> (new_ranks: Ghost<Seq<int>>)
    requires
        n >= 0,
        are_crossings(old(events)@, ranks, corridor, walks, nodes, labels, n),
        is_crossing(event, corridor, walks, nodes, labels, roots_of(labels, labels.len() as int)[n]),
    ensures
        are_crossings(final(events)@, new_ranks@, corridor, walks, nodes, labels, n + 1),
{
    let ghost before = events@;
    let mut place: usize = events.len();
    while place > 0 && (event.start.order_key() < events[place - 1].start.order_key() || (event.start.order_key()
        == events[place - 1].start.order_key() && event.end.order_key() < events[place - 1].end.order_key()))
        invariant
            place <= events.len(),
            events@ == before,
            before.len() == n,
            ranks.len() == n,
            are_crossings(before, ranks, corridor, walks, nodes, labels, n),
            forall|i: int|
                place <= i < n ==> event.start.rank() < (#[trigger] before[i]).start.rank() || (event.start.rank()
                    == before[i].start.rank() && event.end.rank() < before[i].end.rank()),
        decreases place,
    {
        place = place - 1;
    }
    let ghost after_ranks = ranks.insert(place as int, n);
    proof {
        assert forall|i: int| 0 <= i < place implies event_before(#[trigger] before[i], ranks[i], event, n) by {
            if i < place - 1 {
                assert(event_before(before[i], ranks[i], before[place - 1], ranks[place - 1]));
            }
            assert(0 <= ranks[i] < n);
        }
    }
    events.insert(place, event);
    proof {
        let after = events@;
        assert(after =~= before.insert(place as int, event));
        let roots = roots_of(labels, labels.len() as int);
        assert forall|i: int| 0 <= i < n + 1 implies 0 <= #[trigger] after_ranks[i] < n + 1 && is_crossing(
            after[i],
            corridor,
            walks,
            nodes,
            labels,
            roots[after_ranks[i]],
        ) by {
            if i != place {
                let x = if i < place { i } else { i - 1 };
                assert(after[i] == before[x] && after_ranks[i] == ranks[x]);
            }
        }
        assert forall|i: int, j: int| 0 <= i < j < n + 1 implies after_ranks[i] != after_ranks[j] && event_before(
            #[trigger] after[i],
            after_ranks[i],
            #[trigger] after[j],
            after_ranks[j],
        ) by {
            if j == place {
                assert(after[i] == before[i] && after_ranks[i] == ranks[i]);
                assert(0 <= ranks[i] < n);
            } else if i == place {
                assert(after[j] == before[j - 1] && after_ranks[j] == ranks[j - 1]);
                assert(0 <= ranks[j - 1] < n);
            } else {
                let x = if i < place { i } else { i - 1 };
                let y = if j < place { j } else { j - 1 };
                assert(after[i] == before[x] && after[j] == before[y]);
                assert(after_ranks[i] == ranks[x] && after_ranks[j] == ranks[y]);
                assert(event_before(before[x], ranks[x], before[y], ranks[y]));
            }
        }
    }
    Ghost(after_ranks)
}

/// The labels in use, in order.
fn list_roots(labels: &Vec<usize>) -> (roots: Vec<usize>)
    ensures
        roots@ == roots_of(labels@, labels@.len() as int),
{
    let mut roots: Vec<usize> = Vec::new();
    let mut i: usize = 0;
    while i < labels.len()
        invariant
            i <= labels.len(),
            roots@ == roots_of(labels@, i as int),
        decreases labels.len() - i,
    {
        if labels[i] == i {
            roots.push(labels[i]);
        }
        i = i + 1;
    }
    roots
}

/// What the walk of a corridor returns.
pub open spec fn is_walked(
    result: Result<DiscWalk, WalkError>,
    corridor: DiscCorridor,
    laws: WalkLaws,
    volumes: VolumeTable,
) -> bool {
    match result {
        Ok(walk) => {
            &&& corridor.samples@.len() > 0
            &&& corridor.samples@[0].offset.equals(Vec3::zero())
            &&& is_disc_walk(walk, corridor, laws, volumes.spec_rows(), volumes@)
            &&& walk.wf()
        },
        Err(error) => disc_error(corridor, laws, volumes.spec_rows(), volumes@, error),
    }
}

/// Walks every sample and associates their runs into crossings.
pub fn walk_disc(corridor: &DiscCorridor, volumes: &VolumeTable, laws: &WalkLaws) -> (result: Result<
    DiscWalk,
    WalkError,
>)
    ensures
        is_walked(result, *corridor, *laws, *volumes),
{
    let k: usize = corridor.samples.len();
    if k == 0 {
        return Err(
            WalkError::BadCorridor { sample: 0, reason: "a disc corridor needs at least the axis sample" },
        );
    }
    if !corridor.samples[0].offset.same(Vec3::zero()) {
        return Err(
            WalkError::BadCorridor { sample: 0, reason: "sample 0 must be the disc axis (zero lateral offset)" },
        );
    }
    let ghost rows = volumes.spec_rows();
    let mut walks: Vec<RayWalk> = Vec::new();
    let mut offsets: Vec<Vec3> = Vec::new();
    let mut sample: usize = 0;
    while sample < k
        invariant
            sample <= k,
            k == corridor.samples@.len(),
            k > 0,
            corridor.samples@[0].offset.equals(Vec3::zero()),
            rows == volumes.spec_rows(),
            walks@.len() == sample,
            offsets@.len() == sample,
            forall|i: int| 0 <= i < sample ==> #[trigger] offsets@[i] == corridor.samples@[i].offset,
            forall|i: int| 0 <= i < sample ==> #[trigger] walkable(*corridor, *laws, volumes@, i),
            forall|i: int|
                0 <= i < sample ==> ray::is_walk(
                    #[trigger] walks@[i],
                    sample_corridor(*corridor, i),
                    *laws,
                    rows,
                    volumes@,
                ),
        decreases k - sample,
    {
        match walk_sample(corridor, sample, volumes, laws) {
            Ok(walk) => {
                walks.push(walk);
            },
            Err(error) => {
                assert(!walkable(*corridor, *laws, volumes@, sample as int));
                return Err(error);
            },
        }
        offsets.push(corridor.samples[sample].offset);
        sample = sample + 1;
    }
    let nodes: Vec<(usize, usize)> = list_nodes(&walks, Ghost(*corridor));
    let labels: Vec<usize> = label_runs(corridor, laws, &walks, &nodes);
    let roots: Vec<usize> = list_roots(&labels);
    let mut events: Vec<DiscEvent> = Vec::new();
    let mut ranks: Ghost<Seq<int>> = Ghost(Seq::empty());
    let mut next: usize = 0;
    while next < roots.len()
        invariant
            next <= roots.len(),
            k == corridor.samples@.len(),
            k > 0,
            corridor.samples@[0].offset.equals(Vec3::zero()),
            walks@.len() == k,
            rows == volumes.spec_rows(),
            forall|i: int| 0 <= i < k ==> #[trigger] walkable(*corridor, *laws, volumes@, i),
            forall|i: int|
                0 <= i < k ==> ray::is_walk(#[trigger] walks@[i], sample_corridor(*corridor, i), *laws, rows, volumes@),
            nodes@ == association::nodes_upto(walks@, walks@.len() as int),
            association::nodes_fit(nodes@, *corridor, walks@),
            labels@.len() == nodes@.len(),
            association::labels_chains(
                |a: int, b: int| association::linked(*corridor, *laws, walks@, nodes@, a, b),
                labels@,
            ),
            roots@ == roots_of(labels@, labels@.len() as int),
            are_crossings(events@, ranks@, *corridor, walks@, nodes@, labels@, next as int),
        decreases roots.len() - next,
    {
        let touches: Vec<Touch> = gather_cluster(corridor, &walks, &nodes, &labels, roots[next]);
        match build_event(corridor, &walks, &touches) {
            Ok(event) => {
                assert(is_crossing(event, *corridor, walks@, nodes@, labels@, roots@[next as int])) by {
                    reveal(is_crossing);
                    assert(is_cluster(touches@, nodes@, labels@, roots@[next as int]));
                }
                ranks = place_event(
                    &mut events,
                    event,
                    Ghost(ranks@),
                    Ghost(*corridor),
                    Ghost(walks@),
                    Ghost(nodes@),
                    Ghost(labels@),
                    Ghost(next as int),
                );
            },
            Err(error) => {
                assert(is_cluster(touches@, nodes@, labels@, roots@[next as int]));
                assert(is_degenerate_crossing(walks@, nodes@, labels@, roots@[next as int], k as nat, error));
                assert(degenerates_at(
                    *corridor,
                    *laws,
                    rows,
                    volumes@,
                    walks@,
                    labels@,
                    ranks@,
                    events@,
                    next as int,
                    error,
                ));
                return Err(error);
            },
        }
        next = next + 1;
    }
    let walk: DiscWalk = DiscWalk {
        axis: corridor.axis,
        anchor: corridor.anchor,
        origin: corridor.origin,
        frame: corridor.frame,
        radius: corridor.radius,
        offsets,
        walks,
        events,
    };
    proof {
        assert(walk.offsets@ =~= corridor.samples@.map_values(
            |sample: crate::ballistics::walk::disc::SampleCorridor| sample.offset,
        ));
        assert(are_crossings(walk.events@, ranks@, *corridor, walk.walks@, nodes@, labels@, roots@.len() as int));
    }
    Ok(walk)
}

} // verus!
