//! A disc of one ray is that ray: each of its crossings is one of the ray's runs, to the bit.

use crate::ballistics::walk::association;
use crate::ballistics::walk::crossings;
use crate::ballistics::walk::disc::{DiscCorridor, DiscEvent, DiscWalk};
use crate::ballistics::walk::disc_walk;
use crate::ballistics::walk::event;
use crate::ballistics::walk::extent;
use crate::ballistics::walk::extent::Touch;
use crate::ballistics::walk::field;
use crate::ballistics::walk::field::Interval;
use crate::ballistics::walk::laws;
use crate::ballistics::walk::profile;
use crate::ballistics::walk::ray;
use crate::ballistics::walk::ray::RayWalk;
use crate::ballistics::walk::spans;
use crate::ballistics::walk::spans::Span;
use crate::ballistics::walk::table;
use crate::ballistics::walk::table::VolumeTable;
use crate::ballistics::walk::vocabulary::{Entity, PrimitiveKey, RayCorridor, WalkError, WalkLaws};
use crate::ballistics::walk::weld;
use crate::ballistics::walk::weld::{Scene, WeldedRun};
use crate::float::{F32, F64};
use crate::format::Format;
use crate::vector::Vec3;
use vstd::arithmetic::power2::*;
use vstd::prelude::*;

verus! {

/// A run that bears its own label is the only one that does.
proof fn lemma_one_member(nodes: Seq<(usize, usize)>, labels: Seq<usize>, root: usize, n: int)
    requires
        0 <= n <= labels.len(),
        nodes.len() == labels.len(),
        forall|i: int| 0 <= i < labels.len() ==> #[trigger] labels[i] == i,
    ensures
        disc_walk::members_of(nodes, labels, root, n) == if root < n {
            seq![nodes[root as int]]
        } else {
            Seq::empty()
        },
    decreases n,
{
    if n > 0 {
        lemma_one_member(nodes, labels, root, n - 1);
        assert(labels[n - 1] == n - 1);
        if root == n - 1 {
            assert(disc_walk::members_of(nodes, labels, root, n - 1).push(nodes[n - 1]) =~= seq![nodes[root as int]]);
        }
    }
}

/// Every label is in use.
proof fn lemma_every_root(labels: Seq<usize>, n: int)
    requires
        0 <= n <= labels.len(),
        forall|i: int| 0 <= i < labels.len() ==> #[trigger] labels[i] == i,
    ensures
        disc_walk::roots_of(labels, n) == labels.take(n),
    decreases n,
{
    if n > 0 {
        lemma_every_root(labels, n - 1);
        assert(labels[n - 1] == n - 1);
        assert(labels.take(n - 1).push(labels[n - 1]) =~= labels.take(n));
    } else {
        assert(labels.take(0) =~= Seq::empty());
    }
}

/// As many runs as touches at least.
proof fn lemma_flattened(touches: Seq<Touch>, n: int)
    requires
        0 <= n <= touches.len(),
        forall|i: int| 0 <= i < touches.len() ==> (#[trigger] touches[i]).runs@.len() > 0,
    ensures
        disc_walk::flattened(touches, n).len() >= n,
    decreases n,
{
    if n > 0 {
        lemma_flattened(touches, n - 1);
        assert(touches[n - 1].runs@.len() > 0);
    }
}

/// A cluster of one run is one touch.
proof fn lemma_one_touch(touches: Seq<Touch>, node: (usize, usize))
    requires
        forall|i: int| 0 <= i < touches.len() ==> (#[trigger] touches[i]).runs@.len() > 0,
        disc_walk::flattened(touches, touches.len() as int) == seq![node],
    ensures
        touches.len() == 1,
        touches[0].sample == node.0,
        touches[0].runs@ == seq![node.1],
{
    lemma_flattened(touches, touches.len() as int);
    if touches.len() == 0 {
        assert(disc_walk::flattened(touches, 0).len() == 0);
    }
    let first = touches[0].runs@.map_values(|run: usize| (touches[0].sample, run));
    assert(disc_walk::flattened(touches, 0) == Seq::<(usize, usize)>::empty());
    assert(disc_walk::flattened(touches, 1) == disc_walk::flattened(touches, 0) + first);
    assert(disc_walk::flattened(touches, 0) + first =~= first);
    assert(first == seq![node]);
    assert(first[0] == (touches[0].sample, touches[0].runs@[0]));
    assert(touches[0].runs@ =~= seq![node.1]);
}

/// All of one is one.
proof fn lemma_whole_share()
    ensures
        extent::share_of(1, 1) == F32::one(),
{
    reveal(F64::whole);
    reveal(F64::quotient);
    reveal(F64::halved);
    let f = Format::Double;
    let one = 0x3ff0_0000_0000_0000nat;
    let s = pow2(1074);
    lemma2_to64();
    lemma2_to64_rest();
    lemma_pow2_pos(1074);
    assert(one / pow2(52) == 1023 && one % pow2(52) == 0) by (nonlinear_arith)
        requires one == 0x3ff0_0000_0000_0000, pow2(52) == 0x10_0000_0000_0000;
    lemma_pow2_adds(52, 1022);
    assert(f.magnitude(one) == s);
    f.lemma_rounded_exact(one, 1);
    assert(s * 1 == s && 1 * s == s);
    assert(F64::whole(1) == (F64 { bits: 0x3ff0_0000_0000_0000 }));
    f.lemma_rounded_exact(one, s);
    assert(F64::whole(1).quotient(F64::whole(1)) == (F64 { bits: 0x3ff0_0000_0000_0000 }));
    let g = Format::Single;
    let small = 0x3f80_0000nat;
    assert(small / pow2(23) == 127 && small % pow2(23) == 0) by (nonlinear_arith)
        requires small == 0x3f80_0000, pow2(23) == 0x80_0000;
    lemma_pow2_adds(23, 126);
    lemma_pow2_adds(149, 925);
    lemma_pow2_pos(925);
    assert(g.magnitude(small) == pow2(149));
    g.lemma_rounded_exact(small, pow2(925));
}

/// The normals agree, component by component, where they are numbers.
pub open spec fn is_same_normal(a: Vec3, b: Vec3) -> bool {
    b.x.finite() && b.y.finite() && b.z.finite() ==> a.equals(b)
}

proof fn lemma_zero_sum(v: Vec3)
    ensures
        is_same_normal(Vec3::zero().sum(v), v),
{
    if v.x.finite() && v.y.finite() && v.z.finite() {
        F32::zero().lemma_nonnegative();
        v.x.lemma_sum_nothing(F32::zero());
        v.y.lemma_sum_nothing(F32::zero());
        v.z.lemma_sum_nothing(F32::zero());
    }
}

/// The crossing is the run.
pub open spec fn is_run(event: DiscEvent, run: WeldedRun) -> bool {
    &&& event.start == run.start
    &&& event.end == run.end
    &&& is_same_normal(event.entry_normal, run.entry_normal)
    &&& is_same_normal(event.exit_normal, run.exit_normal)
    &&& event.coverage == F32::one()
    &&& event.entrance_volume == run.entry_volume
    &&& weld::in_primitive_order(event.primitives@) && weld::in_primitive_order(run.primitives@)
    &&& forall|key: PrimitiveKey| #[trigger] event.primitives@.contains(key) <==> run.primitives@.contains(key)
}

/// A distance lies between the infinities.
proof fn lemma_finite_between(t: F64)
    requires
        t.finite(),
    ensures
        t.below(F64 { bits: 0x7ff0_0000_0000_0000 }),
        (F64 { bits: 0xfff0_0000_0000_0000 }).below(t),
{
    reveal(F64::value);
    Format::Double.lemma_bounded(t.bits as nat);
}

/// A crossing of one run on one sample is that run.
proof fn lemma_event(event: DiscEvent, corridor: DiscCorridor, walks: Seq<RayWalk>, touches: Seq<Touch>, r: usize)
    requires
        corridor.samples@.len() == 1,
        walks.len() == 1,
        r < walks[0].runs@.len(),
        touches.len() == 1,
        touches[0].sample == 0,
        touches[0].runs@ == seq![r],
        event::is_event(event, corridor, walks, touches),
        walks[0].runs@[r as int].start.finite(),
        walks[0].runs@[r as int].end.finite(),
        weld::in_primitive_order(walks[0].runs@[r as int].primitives@),
    ensures
        is_run(event, walks[0].runs@[r as int]),
{
    let run = walks[0].runs@[r as int];
    reveal_with_fuel(extent::start_of, 2);
    reveal_with_fuel(extent::end_of, 2);
    reveal_with_fuel(extent::volume_of, 2);
    reveal_with_fuel(extent::entry_sum, 2);
    reveal_with_fuel(extent::exit_sum, 2);
    assert(extent::first_run(walks, touches[0]) == run);
    assert(touches[0].runs@.last() == r);
    assert(extent::last_run(walks, touches[0]) == run);
    lemma_finite_between(run.start);
    lemma_finite_between(run.end);
    lemma_zero_sum(run.entry_normal);
    lemma_zero_sum(run.exit_normal);
    lemma_whole_share();
    assert forall|key: PrimitiveKey| #[trigger] event.primitives@.contains(key) <==> run.primitives@.contains(key) by {
        if run.primitives@.contains(key) {
            assert(event::run_has(walks, touches, 0, 0, key));
            assert(event::touches_primitive(walks, touches, key));
        }
    }
}

/// The groups are ranges of runs, apart and in order.
spec fn groups_fit(groups: Seq<(int, int)>, first: int, count: int) -> bool {
    &&& forall|i: int| 0 <= i < groups.len() ==> first <= (#[trigger] groups[i]).0 <= groups[i].1 < count
    &&& forall|i: int, j: int| 0 <= i < j < groups.len() ==> (#[trigger] groups[i]).1 < (#[trigger] groups[j]).0
}

proof fn lemma_groups_fit(scene: Scene, r: int, first: int, spent: F64)
    requires
        0 <= first <= r,
    ensures
        groups_fit(scene.groups_from(r, first, spent), first, scene.runs.len() as int),
    decreases scene.runs.len() - r,
{
    if r + 1 < scene.runs.len() {
        if scene.welds(r, spent) {
            lemma_groups_fit(scene, r + 1, first, spent.sum(scene.gap_across(r)));
        } else {
            lemma_groups_fit(scene, r + 1, r + 1, F64::zero());
            let rest = scene.groups_from(r + 1, r + 1, F64::zero());
            let all = scene.groups_from(r, first, spent);
            assert(all =~= seq![(first, r)] + rest);
            assert forall|i: int| 0 <= i < all.len() implies first <= (#[trigger] all[i]).0 <= all[i].1
                < scene.runs.len() by {
                if i > 0 {
                    assert(all[i] == rest[i - 1]);
                }
            }
            assert forall|i: int, j: int| 0 <= i < j < all.len() implies (#[trigger] all[i]).1 < (#[trigger] all[j]).0 by {
                assert(all[j] == rest[j - 1]);
                if i > 0 {
                    assert(all[i] == rest[i - 1]);
                }
            }
        }
    }
}

/// Later spans of a tiling start where earlier ones have ended, or after.
pub(crate) proof fn lemma_rising(a: Seq<Span>, from: int, to: int, i: int, j: int)
    requires
        spans::tiles(a, from, to),
        0 <= i < j < a.len(),
    ensures
        a[i].end.value() <= a[j].start.value(),
        a[i].start.value() < a[i].end.value(),
    decreases j - i,
{
    assert(a[i].start.below(a[i].end));
    assert(a[i].end == a[i + 1].start);
    if i + 1 < j {
        lemma_rising(a, from, to, i + 1, j);
    }
}

/// The spans of a ray's run, by place: from the first to behind the last.
pub open spec fn places_of(walk: RayWalk, corridor: RayCorridor, laws: WalkLaws, rows: Seq<(Entity, F32)>, r: int) -> (
    int,
    int,
) {
    let scene = scene_of(walk, corridor, laws, rows);
    let group = scene.groups()[r];
    (scene.runs[group.0].0 as int, scene.runs[group.1].1 as int)
}

/// What welding reads of a ray's walk.
pub open spec fn scene_of(walk: RayWalk, corridor: RayCorridor, laws: WalkLaws, rows: Seq<(Entity, F32)>) -> Scene {
    Scene {
        spans: walk.spans@,
        runs: weld::runs_from(walk.spans@, 0),
        transitions: field::transitions_from(
            rows,
            ray::crossings_of(corridor, laws),
            corridor.initial_presence@,
            0,
        ),
        axis: corridor.axis,
        laws,
    }
}

/// The places of a group of runs.
proof fn lemma_group_places(charted: Seq<Span>, runs: Seq<(usize, usize)>, group: (int, int))
    requires
        charted.len() <= usize::MAX,
        runs == weld::runs_from(charted, 0),
        0 <= group.0 <= group.1 < runs.len(),
    ensures
        runs[group.0].0 < runs[group.1].1 <= charted.len(),
        charted[runs[group.0].0 as int].is_material(),
        charted[runs[group.1].1 - 1].is_material(),
{
    weld::lemma_runs_fit(charted, 0);
    lemma_runs_material(charted, 0);
    assert(runs[group.0].0 < runs[group.0].1 <= charted.len());
    assert(runs[group.1].0 < runs[group.1].1 <= charted.len());
    if group.0 < group.1 {
        assert(runs[group.0].1 < runs[group.1].0);
    }
}

/// Each run of a ray is a welded group.
proof fn lemma_welded(
    walk: RayWalk,
    corridor: RayCorridor,
    laws: WalkLaws,
    rows: Seq<(Entity, F32)>,
    factors: Map<Entity, F32>,
    r: int,
)
    requires
        ray::is_walk(walk, corridor, laws, rows, factors),
        0 <= r < walk.runs@.len(),
    ensures
        walk.runs@.len() == scene_of(walk, corridor, laws, rows).groups().len(),
        weld::is_welded(
            walk.runs@[r],
            scene_of(walk, corridor, laws, rows),
            ray::intervals_of(corridor, laws),
            scene_of(walk, corridor, laws, rows).groups()[r],
        ),
{
}

/// Where a run of a ray lies among its spans.
pub(crate) proof fn lemma_places(
    walk: RayWalk,
    corridor: RayCorridor,
    laws: WalkLaws,
    rows: Seq<(Entity, F32)>,
    factors: Map<Entity, F32>,
    r: int,
)
    requires
        ray::is_walk(walk, corridor, laws, rows, factors),
        0 <= r < walk.runs@.len(),
    ensures
        ({
            let (a, b) = places_of(walk, corridor, laws, rows, r);
            let run = walk.runs@[r];
            &&& 0 <= a < b <= walk.spans@.len()
            &&& run.start == walk.spans@[a].start
            &&& run.end == walk.spans@[b - 1].end
            &&& run.cost == weld::cost_between(walk.spans@, a, b).halved()
            &&& weld::in_primitive_order(run.primitives@)
            &&& walk.spans@[a].is_material()
            &&& walk.spans@[b - 1].is_material()
        }),
{
    lemma_welded(walk, corridor, laws, rows, factors, r);
    lemma_group(walk, scene_of(walk, corridor, laws, rows), ray::intervals_of(corridor, laws), r);
}

/// The same, of a scene.
proof fn lemma_group(walk: RayWalk, scene: Scene, intervals: Seq<Interval>, r: int)
    requires
        scene.spans == walk.spans@,
        scene.runs == weld::runs_from(walk.spans@, 0),
        0 <= r < scene.groups().len(),
        weld::is_welded(walk.runs@[r], scene, intervals, scene.groups()[r]),
    ensures
        ({
            let group = scene.groups()[r];
            let (a, b) = (scene.runs[group.0].0 as int, scene.runs[group.1].1 as int);
            let run = walk.runs@[r];
            &&& 0 <= a < b <= walk.spans@.len()
            &&& run.start == walk.spans@[a].start
            &&& run.end == walk.spans@[b - 1].end
            &&& run.cost == weld::cost_between(walk.spans@, a, b).halved()
            &&& weld::in_primitive_order(run.primitives@)
            &&& walk.spans@[a].is_material()
            &&& walk.spans@[b - 1].is_material()
        }),
{
    assert(walk.spans.len() == walk.spans@.len());
    lemma_groups_fit(scene, 0, 0, F64::zero());
    lemma_group_places(walk.spans@, scene.runs, scene.groups()[r]);
}

/// A run of material starts and ends with some.
proof fn lemma_runs_material(charted: Seq<Span>, i: int)
    requires
        0 <= i <= charted.len(),
        charted.len() <= usize::MAX,
    ensures
        forall|r: int|
            0 <= r < weld::runs_from(charted, i).len() ==> {
                let run = #[trigger] weld::runs_from(charted, i)[r];
                run.0 < run.1 <= charted.len() && charted[run.0 as int].is_material() && charted[run.1 - 1].is_material()
            },
    decreases charted.len() - i,
{
    if i < charted.len() {
        if charted[i].is_material() {
            weld::lemma_run_end(charted, i);
            let j = weld::run_end(charted, i);
            lemma_runs_material(charted, j);
            let rest = weld::runs_from(charted, j);
            let all = weld::runs_from(charted, i);
            assert(all =~= seq![(i as usize, j as usize)] + rest);
            assert(charted[j - 1].is_material());
            assert forall|r: int| 0 <= r < all.len() implies {
                let run = #[trigger] all[r];
                run.0 < run.1 <= charted.len() && charted[run.0 as int].is_material() && charted[run.1 - 1].is_material()
            } by {
                if r > 0 {
                    assert(all[r] == rest[r - 1]);
                }
            }
        } else {
            lemma_runs_material(charted, i + 1);
            assert(weld::runs_from(charted, i) == weld::runs_from(charted, i + 1));
        }
    } else {
        assert(weld::runs_from(charted, i) == Seq::<(usize, usize)>::empty());
    }
}

/// The runs of a ray start one after another.
pub(crate) proof fn lemma_runs_rise(
    walk: RayWalk,
    corridor: RayCorridor,
    laws: WalkLaws,
    rows: Seq<(Entity, F32)>,
    factors: Map<Entity, F32>,
    r: int,
    q: int,
)
    requires
        ray::is_walk(walk, corridor, laws, rows, factors),
        0 <= r < q < walk.runs@.len(),
    ensures
        walk.runs@[r].start.rank() < walk.runs@[q].start.rank(),
{
    let scene = scene_of(walk, corridor, laws, rows);
    assert(walk.spans.len() == walk.spans@.len());
    weld::lemma_runs_fit(walk.spans@, 0);
    lemma_groups_fit(scene, 0, 0, F64::zero());
    lemma_welded(walk, corridor, laws, rows, factors, r);
    lemma_places(walk, corridor, laws, rows, factors, r);
    lemma_places(walk, corridor, laws, rows, factors, q);
    let (a, b) = places_of(walk, corridor, laws, rows, r);
    let (c, d) = places_of(walk, corridor, laws, rows, q);
    assert(a < c) by {
        let (g, h) = (scene.groups()[r], scene.groups()[q]);
        assert(g.1 < h.0);
        assert(scene.runs[g.1].1 < scene.runs[h.0].0);
    }
    lemma_rising(walk.spans@, 0, corridor.length.doubled().value(), a, c);
    assert(walk.spans@[a].start.below(walk.spans@[a].end));
    assert(walk.spans@[c].start.below(walk.spans@[c].end));
    walk.spans@[a].start.lemma_rank(walk.spans@[c].start);
}

/// The runs of a ray lie apart.
pub(crate) proof fn lemma_runs_apart(
    walk: RayWalk,
    corridor: RayCorridor,
    laws: WalkLaws,
    rows: Seq<(Entity, F32)>,
    factors: Map<Entity, F32>,
    r: int,
    q: int,
)
    requires
        ray::is_walk(walk, corridor, laws, rows, factors),
        0 <= r < q < walk.runs@.len(),
    ensures
        walk.runs@[r].end.value() <= walk.runs@[q].start.value(),
{
    let scene = scene_of(walk, corridor, laws, rows);
    assert(walk.spans.len() == walk.spans@.len());
    weld::lemma_runs_fit(walk.spans@, 0);
    lemma_groups_fit(scene, 0, 0, F64::zero());
    lemma_welded(walk, corridor, laws, rows, factors, r);
    lemma_places(walk, corridor, laws, rows, factors, r);
    lemma_places(walk, corridor, laws, rows, factors, q);
    let (a, b) = places_of(walk, corridor, laws, rows, r);
    let (c, d) = places_of(walk, corridor, laws, rows, q);
    assert(b < c) by {
        let (g, h) = (scene.groups()[r], scene.groups()[q]);
        assert(g.1 < h.0);
        assert(scene.runs[g.1].1 < scene.runs[h.0].0);
    }
    lemma_rising(walk.spans@, 0, corridor.length.doubled().value(), b - 1, c);
}

/// A span of material stands in a run.
proof fn lemma_span_in_run(charted: Seq<Span>, i: int, p: int) -> (r: int)
    requires
        0 <= i <= p < charted.len() <= usize::MAX,
        charted[p].is_material(),
    ensures
        0 <= r < weld::runs_from(charted, i).len(),
        weld::runs_from(charted, i)[r].0 <= p < weld::runs_from(charted, i)[r].1,
    decreases charted.len() - i,
{
    weld::lemma_run_end(charted, i);
    if charted[i].is_material() {
        let j = weld::run_end(charted, i);
        let rest = weld::runs_from(charted, j);
        let all = weld::runs_from(charted, i);
        assert(all =~= seq![(i as usize, j as usize)] + rest);
        if p < j {
            0
        } else {
            let r = lemma_span_in_run(charted, j, p);
            assert(all[r + 1] == rest[r]);
            r + 1
        }
    } else {
        assert(weld::runs_from(charted, i) == weld::runs_from(charted, i + 1));
        lemma_span_in_run(charted, i + 1, p)
    }
}

/// A run stands in a group.
proof fn lemma_run_in_group(scene: Scene, r: int, first: int, spent: F64, q: int) -> (g: int)
    requires
        0 <= first <= r < scene.runs.len(),
        first <= q < scene.runs.len(),
    ensures
        0 <= g < scene.groups_from(r, first, spent).len(),
        scene.groups_from(r, first, spent)[g].0 <= q <= scene.groups_from(r, first, spent)[g].1,
    decreases scene.runs.len() - r,
{
    let all = scene.groups_from(r, first, spent);
    if r + 1 == scene.runs.len() {
        assert(all[0] == (first, r));
        0
    } else if scene.welds(r, spent) {
        lemma_run_in_group(scene, r + 1, first, spent.sum(scene.gap_across(r)), q)
    } else {
        let rest = scene.groups_from(r + 1, r + 1, F64::zero());
        assert(all =~= seq![(first, r)] + rest);
        if q <= r {
            assert(all[0] == (first, r));
            0
        } else {
            let g = lemma_run_in_group(scene, r + 1, r + 1, F64::zero(), q);
            assert(all[g + 1] == rest[g]);
            g + 1
        }
    }
}

/// A span of material stands in a welded run.
pub(crate) proof fn lemma_material_in_run(
    walk: RayWalk,
    corridor: RayCorridor,
    laws: WalkLaws,
    rows: Seq<(Entity, F32)>,
    factors: Map<Entity, F32>,
    p: int,
) -> (r: int)
    requires
        ray::is_walk(walk, corridor, laws, rows, factors),
        0 <= p < walk.spans@.len(),
        walk.spans@[p].is_material(),
    ensures
        0 <= r < walk.runs@.len(),
        walk.runs@[r].start.value() <= walk.spans@[p].start.value(),
        walk.spans@[p].end.value() <= walk.runs@[r].end.value(),
{
    let charted = walk.spans@;
    let scene = scene_of(walk, corridor, laws, rows);
    let to = corridor.length.doubled().value();
    assert(walk.spans.len() == charted.len());
    let q = lemma_span_in_run(charted, 0, p);
    let r = lemma_run_in_group(scene, 0, 0, F64::zero(), q);
    lemma_welded(walk, corridor, laws, rows, factors, r);
    lemma_places(walk, corridor, laws, rows, factors, r);
    let (a, b) = places_of(walk, corridor, laws, rows, r);
    weld::lemma_runs_fit(charted, 0);
    lemma_groups_fit(scene, 0, 0, F64::zero());
    let group = scene.groups()[r];
    if group.0 < q {
        assert(scene.runs[group.0].1 < scene.runs[q].0);
        assert(scene.runs[group.0].0 < scene.runs[group.0].1);
    }
    if q < group.1 {
        assert(scene.runs[q].1 < scene.runs[group.1].0);
        assert(scene.runs[group.1].0 < scene.runs[group.1].1);
    }
    assert(a <= p < b);
    laws::lemma_forward(charted, 0, to, p);
    if a < p {
        lemma_rising(charted, 0, to, a, p);
    }
    if p < b - 1 {
        lemma_rising(charted, 0, to, p, b - 1);
        laws::lemma_forward(charted, 0, to, b - 1);
    }
    r
}

/// A rising list of as many places as there are is every place in order.
proof fn lemma_in_place(ranks: Seq<int>, i: int)
    requires
        forall|k: int| 0 <= k < ranks.len() ==> 0 <= #[trigger] ranks[k] < ranks.len(),
        forall|k: int, l: int| 0 <= k < l < ranks.len() ==> #[trigger] ranks[k] < #[trigger] ranks[l],
        0 <= i < ranks.len(),
    ensures
        ranks[i] == i,
{
    lemma_at_least(ranks, i);
    lemma_at_most(ranks, i);
}

proof fn lemma_at_least(ranks: Seq<int>, i: int)
    requires
        forall|k: int| 0 <= k < ranks.len() ==> 0 <= #[trigger] ranks[k] < ranks.len(),
        forall|k: int, l: int| 0 <= k < l < ranks.len() ==> #[trigger] ranks[k] < #[trigger] ranks[l],
        0 <= i < ranks.len(),
    ensures
        ranks[i] >= i,
    decreases i,
{
    if i > 0 {
        lemma_at_least(ranks, i - 1);
        assert(ranks[i - 1] < ranks[i]);
    }
}

proof fn lemma_at_most(ranks: Seq<int>, i: int)
    requires
        forall|k: int| 0 <= k < ranks.len() ==> 0 <= #[trigger] ranks[k] < ranks.len(),
        forall|k: int, l: int| 0 <= k < l < ranks.len() ==> #[trigger] ranks[k] < #[trigger] ranks[l],
        0 <= i < ranks.len(),
    ensures
        ranks[i] <= i,
    decreases ranks.len() - i,
{
    if i + 1 < ranks.len() {
        lemma_at_most(ranks, i + 1);
        assert(ranks[i] < ranks[i + 1]);
    }
}

/// What each crossing of a disc of one ray is built from: the run of the same place.
spec fn is_built_from_run(event: DiscEvent, corridor: DiscCorridor, walks: Seq<RayWalk>, r: usize) -> bool {
    exists|touches: Seq<Touch>|
        {
            &&& touches.len() == 1
            &&& touches[0].sample == 0
            &&& touches[0].runs@ == seq![r]
            &&& #[trigger] event::is_event(event, corridor, walks, touches)
        }
}

/// On a disc of one ray, the crossings are the runs in order.
proof fn lemma_crossings_are_runs(
    walk: DiscWalk,
    corridor: DiscCorridor,
    laws: WalkLaws,
    rows: Seq<(Entity, F32)>,
    factors: Map<Entity, F32>,
)
    requires
        disc_walk::is_disc_walk(walk, corridor, laws, rows, factors),
        corridor.samples@.len() == 1,
        table::ordered(rows),
        walk.walks@[0].runs@.len() <= usize::MAX,
    ensures
        walk.events@.len() == walk.walks@[0].runs@.len(),
        forall|i: int|
            0 <= i < walk.events@.len() ==> is_built_from_run(
                #[trigger] walk.events@[i],
                corridor,
                walk.walks@,
                i as usize,
            ) && is_run(walk.events@[i], walk.walks@[0].runs@[i]),
{
    let walks = walk.walks@;
    let own = disc_walk::sample_corridor(corridor, 0);
    let nodes = association::nodes_upto(walks, 1);
    let count = walks[0].runs@.len() as int;
    assert(disc_walk::walkable(corridor, laws, factors, 0));
    assert(ray::is_walk(walks[0], own, laws, rows, factors));
    reveal_with_fuel(association::nodes_upto, 2);
    assert(nodes =~= Seq::new(walks[0].runs@.len(), |r: int| (0usize, r as usize)));
    let link = |a: int, b: int| association::linked(corridor, laws, walks, nodes, a, b);
    let (labels, ranks) = choose|labels: Seq<usize>, ranks: Seq<int>|
        {
            &&& labels.len() == nodes.len()
            &&& association::labels_chains(
                |a: int, b: int| association::linked(corridor, laws, walks, nodes, a, b),
                labels,
            )
            &&& #[trigger] disc_walk::are_crossings(
                walk.events@,
                ranks,
                corridor,
                walks,
                nodes,
                labels,
                disc_walk::roots_of(labels, labels.len() as int).len() as int,
            )
        };
    assert(association::labels_chains(link, labels));
    assert forall|i: int| 0 <= i < labels.len() implies #[trigger] labels[i] == i by {
        lemma_unlinked(link, labels, nodes, i, corridor, laws, walks);
    }
    lemma_every_root(labels, labels.len() as int);
    assert(labels.take(labels.len() as int) =~= labels);
    let events = walk.events@;
    assert forall|i: int| 0 <= i < count implies is_built_from_run(
        #[trigger] events[i],
        corridor,
        walks,
        ranks[i] as usize,
    ) && is_run(events[i], walks[0].runs@[ranks[i]]) && 0 <= ranks[i] < count by {
        let r = ranks[i];
        assert(0 <= r < count);
        assert(labels[r] == r);
        let root = labels[r];
        reveal(disc_walk::is_crossing);
        assert(disc_walk::is_crossing(events[i], corridor, walks, nodes, labels, root));
        let touches = choose|touches: Seq<Touch>| #[trigger]
            disc_walk::is_cluster(touches, nodes, labels, root) && event::is_event(
                events[i],
                corridor,
                walks,
                touches,
            );
        lemma_one_member(nodes, labels, root, nodes.len() as int);
        lemma_one_touch(touches, nodes[r]);
        lemma_places(walks[0], own, laws, rows, factors, r);
        let (a, b) = places_of(walks[0], own, laws, rows, r);
        laws::lemma_proper(walks[0], own, laws, rows, factors, a);
        laws::lemma_proper(walks[0], own, laws, rows, factors, b - 1);
        lemma_event(events[i], corridor, walks, touches, root);
    }
    assert forall|i: int, j: int| 0 <= i < j < ranks.len() implies #[trigger] ranks[i] < #[trigger] ranks[j] by {
        assert(disc_walk::event_before(events[i], ranks[i], events[j], ranks[j]));
        assert(is_run(events[i], walks[0].runs@[ranks[i]]));
        assert(is_run(events[j], walks[0].runs@[ranks[j]]));
        if ranks[j] < ranks[i] {
            lemma_runs_rise(walks[0], own, laws, rows, factors, ranks[j], ranks[i]);
        }
    }
    assert forall|i: int| 0 <= i < events.len() implies is_built_from_run(#[trigger] events[i], corridor, walks, i as usize)
        && is_run(events[i], walks[0].runs@[i]) by {
        lemma_in_place(ranks, i);
    }
}

/// Runs of one sample are never linked, so each bears its own label.
proof fn lemma_unlinked(
    link: spec_fn(int, int) -> bool,
    labels: Seq<usize>,
    nodes: Seq<(usize, usize)>,
    i: int,
    corridor: DiscCorridor,
    laws: WalkLaws,
    walks: Seq<RayWalk>,
)
    requires
        link == (|a: int, b: int| association::linked(corridor, laws, walks, nodes, a, b)),
        association::labels_chains(link, labels),
        nodes.len() == labels.len(),
        forall|n: int| 0 <= n < nodes.len() ==> (#[trigger] nodes[n]).0 == 0,
        0 <= i < labels.len(),
    ensures
        labels[i] == i,
{
    assert(association::rooted(labels, i));
    let root = labels[i] as int;
    assert(association::alike(labels, i, root));
    let n = labels.len() as int;
    let path = choose|path: Seq<int>| #[trigger]
        association::is_chain(link, n, path) && path[0] == i && path.last() == root;
    if path.len() > 1 {
        assert(association::steps_on(link, path, 0));
        let (x, y) = (path[0], path[1]);
        assert(nodes[x].0 == 0 && nodes[y].0 == 0);
        assert(!link(x, y) && !link(y, x));
    }
    assert(path.last() == path[0]);
}

/// The distances rise.
pub open spec fn rises(ts: Seq<F64>) -> bool {
    forall|i: int, j: int| 0 <= i < j < ts.len() ==> (#[trigger] ts[i]).value() < (#[trigger] ts[j]).value()
}

/// Two rising lists of the same distances are one list.
proof fn lemma_same_rising(x: Seq<F64>, y: Seq<F64>)
    requires
        rises(x),
        rises(y),
        forall|t: F64| #[trigger] x.contains(t) <==> y.contains(t),
    ensures
        x == y,
    decreases x.len(),
{
    if x.len() == 0 || y.len() == 0 {
        if x.len() > 0 {
            assert(x.contains(x[0]));
        }
        if y.len() > 0 {
            assert(y.contains(y[0]));
            assert(x.contains(y[0]));
        }
        assert(x =~= y);
    } else {
        assert(x.contains(x.last()));
        assert(y.contains(y.last()));
        assert(x.contains(y.last()));
        let j = choose|j: int| 0 <= j < y.len() && y[j] == x.last();
        let i = choose|i: int| 0 <= i < x.len() && x[i] == y.last();
        assert(j == y.len() - 1) by {
            if j < y.len() - 1 {
                assert(y[j].value() < y[y.len() - 1].value());
                if i < x.len() - 1 {
                    assert(x[i].value() < x[x.len() - 1].value());
                }
            }
        }
        let (p, q) = (x.drop_last(), y.drop_last());
        assert forall|t: F64| #[trigger] p.contains(t) <==> q.contains(t) by {
            if p.contains(t) {
                let k = choose|k: int| 0 <= k < p.len() && p[k] == t;
                assert(x[k] == t && x[k].value() < x[x.len() - 1].value());
                assert(x.contains(t));
                let l = choose|l: int| 0 <= l < y.len() && y[l] == t;
                assert(l < y.len() - 1);
                assert(q[l] == t);
            }
            if q.contains(t) {
                let l = choose|l: int| 0 <= l < q.len() && q[l] == t;
                assert(y[l] == t && y[l].value() < y[y.len() - 1].value());
                assert(y.contains(t));
                assert(x.contains(t));
                let k = choose|k: int| 0 <= k < x.len() && x[k] == t;
                assert(k < x.len() - 1);
                assert(p[k] == t);
            }
        }
        assert(rises(p)) by {
            assert forall|k: int, l: int| 0 <= k < l < p.len() implies (#[trigger] p[k]).value() < (#[trigger] p[l]).value() by {
                assert(x[k].value() < x[l].value());
            }
        }
        assert(rises(q)) by {
            assert forall|k: int, l: int| 0 <= k < l < q.len() implies (#[trigger] q[k]).value() < (#[trigger] q[l]).value() by {
                assert(y[k].value() < y[l].value());
            }
        }
        lemma_same_rising(p, q);
        assert(x =~= p.push(x.last()));
        assert(y =~= q.push(y.last()));
    }
}

/// Numbers, of which no two share a value without sharing their bits.
spec fn is_told_apart(ts: Seq<F64>) -> bool {
    &&& forall|i: int| 0 <= i < ts.len() ==> !(#[trigger] ts[i]).is_nan()
    &&& forall|i: int, j: int|
        0 <= i < ts.len() && 0 <= j < ts.len() && (#[trigger] ts[i]).value() == (#[trigger] ts[j]).value() ==> ts[i]
            == ts[j]
}

/// The distinct marks of an ordered list rise, and are the list's marks.
proof fn lemma_distinct(ts: Seq<F64>, n: int)
    requires
        profile::in_rank_order(ts),
        is_told_apart(ts),
        0 <= n <= ts.len(),
    ensures
        rises(profile::distinct(ts, n)),
        forall|t: F64| #[trigger] profile::distinct(ts, n).contains(t) <==> ts.take(n).contains(t),
        n > 0 ==> profile::distinct(ts, n).len() > 0 && profile::distinct(ts, n).last() == ts[n - 1],
    decreases n,
{
    if n > 0 {
        lemma_distinct(ts, n - 1);
        let rest = profile::distinct(ts, n - 1);
        let all = profile::distinct(ts, n);
        let here = ts[n - 1];
        let (before, upto) = (ts.take(n - 1), ts.take(n));
        assert(upto =~= before.push(here));
        if n > 1 {
            assert(rest.last() == ts[n - 2]);
            assert(ts[n - 2].rank() <= ts[n - 1].rank());
            ts[n - 2].lemma_rank(here);
        }
        assert forall|t: F64| #[trigger] all.contains(t) <==> upto.contains(t) by {
            if all.contains(t) {
                let k = choose|k: int| 0 <= k < all.len() && all[k] == t;
                if k < rest.len() {
                    assert(rest[k] == t);
                    assert(rest.contains(t));
                    let l = choose|l: int| 0 <= l < before.len() && before[l] == t;
                    assert(upto[l] == t);
                } else {
                    assert(upto[n - 1] == t);
                }
            }
            if upto.contains(t) {
                let l = choose|l: int| 0 <= l < upto.len() && upto[l] == t;
                if l < n - 1 {
                    assert(before[l] == t);
                    assert(before.contains(t));
                    assert(rest.contains(t));
                    let k = choose|k: int| 0 <= k < rest.len() && rest[k] == t;
                    assert(all[k] == t);
                } else {
                    assert(all.last() == here);
                    assert(all[all.len() - 1] == t);
                }
            }
        }
        assert forall|k: int, l: int| 0 <= k < l < all.len() implies (#[trigger] all[k]).value() < (#[trigger] all[l]).value() by {
            if l < rest.len() {
                assert(rest[k].value() < rest[l].value());
            } else {
                assert(all[l] == here);
                assert(all[k] == rest[k]);
                if k < rest.len() - 1 {
                    assert(rest[k].value() < rest[rest.len() - 1].value());
                }
            }
        }
    }
}

/// Nothing is trimmed where everything lies inside.
proof fn lemma_untrimmed(ts: Seq<F64>, start: F64, end: F64, n: int)
    requires
        0 <= n <= ts.len(),
        forall|i: int| 0 <= i < ts.len() ==> start.at_most(#[trigger] ts[i]) && ts[i].at_most(end),
    ensures
        profile::trimmed(ts, start, end, n) == ts.take(n),
    decreases n,
{
    if n > 0 {
        lemma_untrimmed(ts, start, end, n - 1);
        assert(start.at_most(ts[n - 1]));
        assert(ts.take(n - 1).push(ts[n - 1]) =~= ts.take(n));
    } else {
        assert(ts.take(0) =~= Seq::empty());
    }
}

/// Spans end to end from the origin on, at distances that are numbers.
pub open spec fn is_paved(charted: Seq<Span>, to: int) -> bool {
    &&& spans::tiles(charted, 0, to)
    &&& forall|i: int| 0 <= i < charted.len() ==> !(#[trigger] charted[i]).start.is_nan() && !charted[i].end.is_nan()
    &&& charted.len() > 0 ==> charted[0].start == F64::zero()
}

/// One of the spans from `a` to behind `b` starts or ends there.
spec fn is_mark(charted: Seq<Span>, a: int, b: int, t: F64) -> bool {
    exists|i: int| a <= i < b && (t == (#[trigger] charted[i]).start || t == charted[i].end)
}

/// Marks of equal distance have equal bits.
proof fn lemma_marks_apart(charted: Seq<Span>, to: int, x: F64, y: F64)
    requires
        is_paved(charted, to),
        is_mark(charted, 0, charted.len() as int, x),
        is_mark(charted, 0, charted.len() as int, y),
        x.value() == y.value(),
    ensures
        x == y,
        !x.is_nan(),
{
    let i = choose|i: int| 0 <= i < charted.len() && (x == (#[trigger] charted[i]).start || x == charted[i].end);
    let j = choose|j: int| 0 <= j < charted.len() && (y == (#[trigger] charted[j]).start || y == charted[j].end);
    laws::lemma_forward(charted, 0, to, i);
    laws::lemma_forward(charted, 0, to, j);
    if x.value() != 0 {
        x.lemma_same_bits(y);
    } else {
        if i > 0 {
            lemma_rising(charted, 0, to, 0, i);
            laws::lemma_forward(charted, 0, to, 0);
        }
        if j > 0 {
            lemma_rising(charted, 0, to, 0, j);
            laws::lemma_forward(charted, 0, to, 0);
        }
    }
}

/// The marks of a run are those of its spans.
proof fn lemma_run_marks(charted: Seq<Span>, to: int, run: WeldedRun, a: int, b: int, n: int)
    requires
        is_paved(charted, to),
        0 <= a < b <= charted.len(),
        run.start == charted[a].start,
        run.end == charted[b - 1].end,
        0 <= n <= charted.len(),
    ensures
        forall|t: F64| #[trigger]
            profile::run_marks(charted, run, n).contains(t) <==> is_mark(
                charted,
                a,
                if b < n {
                    b
                } else {
                    n
                },
                t,
            ),
    decreases n,
{
    let marks = profile::run_marks(charted, run, n);
    if n > 0 {
        lemma_run_marks(charted, to, run, a, b, n - 1);
        let rest = profile::run_marks(charted, run, n - 1);
        let span = charted[n - 1];
        let met = run.start.below(span.end) && span.start.below(run.end);
        assert(met <==> a <= n - 1 < b) by {
            laws::lemma_forward(charted, 0, to, a);
            laws::lemma_forward(charted, 0, to, b - 1);
            laws::lemma_forward(charted, 0, to, n - 1);
            if n - 1 < a {
                lemma_rising(charted, 0, to, n - 1, a);
            } else if a < n - 1 {
                lemma_rising(charted, 0, to, a, n - 1);
            }
            if b - 1 < n - 1 {
                lemma_rising(charted, 0, to, b - 1, n - 1);
            } else if n - 1 < b - 1 {
                lemma_rising(charted, 0, to, n - 1, b - 1);
            }
        }
        let (top, under) = (
            if b < n {
                b
            } else {
                n
            },
            if b < n - 1 {
                b
            } else {
                n - 1
            },
        );
        assert forall|t: F64| #[trigger] marks.contains(t) <==> is_mark(charted, a, top, t) by {
            if met {
                assert(marks == rest.push(span.start).push(span.end));
                assert(top == n && under == n - 1);
                if marks.contains(t) {
                    let k = choose|k: int| 0 <= k < marks.len() && marks[k] == t;
                    if k < rest.len() {
                        assert(rest[k] == t);
                        assert(rest.contains(t));
                        let i = choose|i: int|
                            a <= i < under && (t == (#[trigger] charted[i]).start || t == charted[i].end);
                        assert(charted[i].start == t || charted[i].end == t);
                    } else {
                        assert(t == charted[n - 1].start || t == charted[n - 1].end);
                    }
                }
                if is_mark(charted, a, top, t) {
                    let i = choose|i: int| a <= i < top && (t == (#[trigger] charted[i]).start || t == charted[i].end);
                    if i == n - 1 {
                        assert(marks[rest.len() as int] == span.start);
                        assert(marks[(rest.len() + 1) as int] == span.end);
                    } else {
                        assert(is_mark(charted, a, under, t));
                        assert(rest.contains(t));
                        let k = choose|k: int| 0 <= k < rest.len() && rest[k] == t;
                        assert(marks[k] == t);
                    }
                }
            } else {
                assert(marks == rest);
                if n - 1 < a {
                    assert(!is_mark(charted, a, top, t));
                    assert(!is_mark(charted, a, under, t));
                } else {
                    assert(top == under);
                }
            }
        }
    } else {
        assert(marks =~= Seq::<F64>::empty());
    }
}

/// The breaks of a run: where it starts, and where each of its spans ends.
spec fn breaks_of(charted: Seq<Span>, a: int, b: int) -> Seq<F64> {
    Seq::new(
        (b - a + 1) as nat,
        |i: int|
            if i == 0 {
                charted[a].start
            } else {
                charted[a + i - 1].end
            },
    )
}

proof fn lemma_breaks(charted: Seq<Span>, to: int, a: int, b: int)
    requires
        is_paved(charted, to),
        0 <= a < b <= charted.len(),
    ensures
        rises(breaks_of(charted, a, b)),
        forall|t: F64| #[trigger] breaks_of(charted, a, b).contains(t) <==> is_mark(charted, a, b, t),
{
    let ts = breaks_of(charted, a, b);
    assert forall|i: int, j: int| 0 <= i < j < ts.len() implies (#[trigger] ts[i]).value() < (#[trigger] ts[j]).value() by {
        let q = a + j - 1;
        assert(charted[q].start.below(charted[q].end));
        if i == 0 {
            if a < q {
                lemma_rising(charted, 0, to, a, q);
            }
        } else {
            let p = a + i - 1;
            lemma_rising(charted, 0, to, p, q);
        }
    }
    assert forall|t: F64| #[trigger] ts.contains(t) <==> is_mark(charted, a, b, t) by {
        if ts.contains(t) {
            let k = choose|k: int| 0 <= k < ts.len() && ts[k] == t;
            if k == 0 {
                assert(charted[a].start == t);
            } else {
                assert(charted[a + k - 1].end == t);
            }
        }
        if is_mark(charted, a, b, t) {
            let i = choose|i: int| a <= i < b && (t == (#[trigger] charted[i]).start || t == charted[i].end);
            if t == charted[i].end {
                assert(ts[i - a + 1] == t);
            } else if i == a {
                assert(ts[0] == t);
            } else {
                assert(charted[i - 1].end == charted[i - 1 + 1].start);
                assert(ts[i - a] == t);
            }
        }
    }
}

/// The breaks of a crossing of one run are the run's.
proof fn lemma_profile_breaks(ts: Seq<F64>, charted: Seq<Span>, to: int, run: WeldedRun, a: int, b: int)
    requires
        is_paved(charted, to),
        0 <= a < b <= charted.len(),
        run.start == charted[a].start,
        run.end == charted[b - 1].end,
        profile::are_breaks(ts, profile::run_marks(charted, run, charted.len() as int), run.start, run.end),
    ensures
        ts == breaks_of(charted, a, b),
{
    broadcast use vstd::seq_lib::group_to_multiset_ensures;

    let marks = profile::run_marks(charted, run, charted.len() as int);
    let list = seq![run.start, run.end] + marks;
    let ordered = choose|ordered: Seq<F64>|
        {
            &&& #[trigger] profile::in_rank_order(ordered)
            &&& ordered.to_multiset() == list.to_multiset()
            &&& ts == profile::trimmed(
                profile::distinct(ordered, ordered.len() as int),
                run.start,
                run.end,
                profile::distinct(ordered, ordered.len() as int).len() as int,
            )
        };
    lemma_run_marks(charted, to, run, a, b, charted.len() as int);
    lemma_breaks(charted, to, a, b);
    assert forall|t: F64| #[trigger] ordered.contains(t) <==> is_mark(charted, a, b, t) by {
        assert(ordered.contains(t) <==> ordered.to_multiset().count(t) > 0);
        assert(list.contains(t) <==> list.to_multiset().count(t) > 0);
        if list.contains(t) {
            let k = choose|k: int| 0 <= k < list.len() && list[k] == t;
            if k == 0 {
                assert(t == charted[a].start);
            } else if k == 1 {
                assert(t == charted[b - 1].end);
            } else {
                assert(marks[k - 2] == t);
                assert(marks.contains(t));
            }
        }
        if is_mark(charted, a, b, t) {
            assert(marks.contains(t));
            let k = choose|k: int| 0 <= k < marks.len() && marks[k] == t;
            assert(list[k + 2] == t);
        }
    }
    assert forall|i: int| 0 <= i < ordered.len() implies {
        let t = #[trigger] ordered[i];
        !t.is_nan() && is_mark(charted, 0, charted.len() as int, t) && is_mark(charted, a, b, t)
    } by {
        let t = ordered[i];
        assert(ordered.contains(t));
        let k = choose|k: int| a <= k < b && (t == (#[trigger] charted[k]).start || t == charted[k].end);
        assert(charted[k].start == t || charted[k].end == t);
    }
    assert(is_told_apart(ordered)) by {
        assert forall|i: int, j: int|
            0 <= i < ordered.len() && 0 <= j < ordered.len() && (#[trigger] ordered[i]).value() == (
            #[trigger] ordered[j]).value() implies ordered[i] == ordered[j] by {
            lemma_marks_apart(charted, to, ordered[i], ordered[j]);
        }
    }
    let n = ordered.len() as int;
    lemma_distinct(ordered, n);
    assert(ordered.take(n) =~= ordered);
    let told = profile::distinct(ordered, n);
    assert forall|i: int| 0 <= i < told.len() implies run.start.at_most(#[trigger] told[i]) && told[i].at_most(run.end) by {
        let t = told[i];
        assert(told.contains(t));
        assert(ordered.contains(t));
        let k = choose|k: int| a <= k < b && (t == (#[trigger] charted[k]).start || t == charted[k].end);
        laws::lemma_forward(charted, 0, to, k);
        if a < k {
            lemma_rising(charted, 0, to, a, k);
        }
        if k < b - 1 {
            lemma_rising(charted, 0, to, k, b - 1);
            laws::lemma_forward(charted, 0, to, b - 1);
        }
        assert(charted[k].start.below(charted[k].end));
    }
    lemma_untrimmed(told, run.start, run.end, told.len() as int);
    assert(told.take(told.len() as int) =~= told);
    assert forall|t: F64| #[trigger] told.contains(t) <==> breaks_of(charted, a, b).contains(t) by {
        assert(told.contains(t) <==> ordered.contains(t));
    }
    lemma_same_rising(told, breaks_of(charted, a, b));
}

/// Halfway between its ends, as it rounds, lies inside the span. That fails only of a span so
/// short that no distance lies between its ends.
pub open spec fn has_middle(span: Span) -> bool {
    let middle = profile::midpoint(span.start, span.end);
    span.start.at_most(middle) && middle.below(span.end)
}

/// A number over one is the number.
proof fn lemma_over_one(x: F64)
    requires
        !x.is_nan(),
    ensures
        x.quotient(F64::whole(1)) == x,
{
    reveal(F64::whole);
    reveal(F64::quotient);
    let f = Format::Double;
    let one = 0x3ff0_0000_0000_0000nat;
    let s = pow2(1074);
    lemma2_to64();
    lemma2_to64_rest();
    lemma_pow2_pos(1074);
    assert(one / pow2(52) == 1023 && one % pow2(52) == 0) by (nonlinear_arith)
        requires one == 0x3ff0_0000_0000_0000, pow2(52) == 0x10_0000_0000_0000;
    lemma_pow2_adds(52, 1022);
    assert(f.magnitude(one) == s);
    f.lemma_rounded_exact(one, 1);
    assert(s * 1 == s && 1 * s == s);
    assert(F64::whole(1) == (F64 { bits: 0x3ff0_0000_0000_0000 }));
    f.lemma_rounded_exact(f.unsigned(x.bits as nat), s);
}

/// Nothing and a number that is not negative is the number.
pub(crate) proof fn lemma_nothing_and(x: F64)
    requires
        !x.is_nan(),
        !x.negative(),
    ensures
        F64::zero().sum(x) == x,
{
    reveal(F64::sum);
    Format::Double.lemma_sum_commutes(0, x.bits as nat);
    x.lemma_sum_zero();
}

/// The first span that holds a distance inside one of them is that one.
pub(crate) proof fn lemma_span_at(charted: Seq<Span>, to: int, t: F64, p: int, i: int)
    requires
        is_paved(charted, to),
        0 <= i <= p < charted.len(),
        charted[p].start.at_most(t),
        t.below(charted[p].end),
    ensures
        profile::span_at(charted, t, i) == Some(charted[p]),
    decreases p - i,
{
    if i < p {
        lemma_rising(charted, 0, to, i, p);
        lemma_span_at(charted, to, t, p, i + 1);
    }
}

/// A stretch of a crossing of one run costs what its span does.
proof fn lemma_slope(walks: Seq<RayWalk>, touches: Seq<Touch>, to: int, r: usize, a: int, b: int, p: int)
    requires
        walks.len() == 1,
        touches.len() == 1,
        touches[0].sample == 0,
        touches[0].runs@ == seq![r],
        r < walks[0].runs@.len(),
        is_paved(walks[0].spans@, to),
        0 <= a <= p < b <= walks[0].spans@.len(),
        walks[0].runs@[r as int].start == walks[0].spans@[a].start,
        walks[0].runs@[r as int].end == walks[0].spans@[b - 1].end,
        has_middle(walks[0].spans@[p]),
        walks[0].spans@[p].factor.finite(),
        !walks[0].spans@[p].factor.negative(),
    ensures
        profile::slope_at(walks, touches, profile::midpoint(walks[0].spans@[p].start, walks[0].spans@[p].end), 1)
            == walks[0].spans@[p].factor.doubled(),
        !walks[0].spans@[p].factor.doubled().is_nan(),
        !walks[0].spans@[p].factor.doubled().negative(),
{
    let charted = walks[0].spans@;
    let span = charted[p];
    let mid = profile::midpoint(span.start, span.end);
    lemma_span_at(charted, to, mid, p, 0);
    if a < p {
        lemma_rising(charted, 0, to, a, p);
    }
    if p < b - 1 {
        lemma_rising(charted, 0, to, p, b - 1);
        laws::lemma_forward(charted, 0, to, b - 1);
    }
    laws::lemma_forward(charted, 0, to, a);
    assert(touches[0].runs@[0] == r);
    assert(profile::in_runs(walks[0], touches[0].runs@, mid));
    span.factor.lemma_doubled();
    span.factor.lemma_nonnegative();
    lemma_nothing_and(span.factor.doubled());
    reveal_with_fuel(profile::slope_at, 2);
}

/// The spans are proper.
pub open spec fn are_proper(charted: Seq<Span>) -> bool {
    forall|i: int|
        0 <= i < charted.len() ==> {
            let span = #[trigger] charted[i];
            &&& span.start.below(span.end)
            &&& span.end.difference(span.start).finite()
            &&& span.factor.finite()
            &&& !span.factor.negative()
        }
}

/// The cost of spans is a number that is not negative.
proof fn lemma_cost_between(charted: Seq<Span>, a: int, n: int)
    requires
        are_proper(charted),
        0 <= a,
        n <= charted.len(),
    ensures
        !weld::cost_between(charted, a, n).is_nan(),
        !weld::cost_between(charted, a, n).negative(),
    decreases n - a,
{
    if a < n {
        lemma_cost_between(charted, a, n - 1);
        let span = charted[n - 1];
        span.end.lemma_difference_nonnegative(span.start);
        span.factor.lemma_doubled();
        span.spec_len().lemma_product_nonnegative(span.factor.doubled());
        weld::cost_between(charted, a, n - 1).lemma_sum_nonnegative(span.spec_cost());
    }
}

/// Nothing is nothing in double precision too.
proof fn lemma_nothing_doubled()
    ensures
        F32::zero().doubled() == F64::zero(),
{
    F32::zero().lemma_nonnegative();
    F32::zero().lemma_doubled();
    let wide = F32::zero().doubled();
    assert(wide.value() == 0) by (nonlinear_arith)
        requires wide.value() == F32::zero().value() * pow2(925), F32::zero().value() == 0;
    wide.lemma_nonnegative();
}

/// Up to each break, the crossing has cost what the run has.
proof fn lemma_cumulative(walks: Seq<RayWalk>, touches: Seq<Touch>, to: int, r: usize, a: int, b: int, n: int)
    requires
        walks.len() == 1,
        touches.len() == 1,
        touches[0].sample == 0,
        touches[0].runs@ == seq![r],
        r < walks[0].runs@.len(),
        is_paved(walks[0].spans@, to),
        are_proper(walks[0].spans@),
        0 <= a < b <= walks[0].spans@.len(),
        walks[0].runs@[r as int].start == walks[0].spans@[a].start,
        walks[0].runs@[r as int].end == walks[0].spans@[b - 1].end,
        forall|p: int| a <= p < b ==> has_middle(#[trigger] walks[0].spans@[p]),
        0 <= n <= b - a,
    ensures
        profile::cumulative_at(walks, touches, breaks_of(walks[0].spans@, a, b), 1, n) == weld::cost_between(
            walks[0].spans@,
            a,
            a + n,
        ),
    decreases n,
{
    if n > 0 {
        lemma_cumulative(walks, touches, to, r, a, b, n - 1);
        let charted = walks[0].spans@;
        let ts = breaks_of(charted, a, b);
        let p = a + n - 1;
        let span = charted[p];
        assert(has_middle(span));
        assert(ts[n - 1] == span.start) by {
            if n > 1 {
                assert(charted[p - 1].end == charted[p - 1 + 1].start);
            }
        }
        assert(ts[n] == span.end);
        lemma_slope(walks, touches, to, r, a, b, p);
        span.factor.lemma_doubled();
        span.end.lemma_difference_nonnegative(span.start);
        span.spec_len().lemma_product_nonnegative(span.factor.doubled());
        lemma_over_one(span.spec_cost());
        if !span.is_material() {
            F32::zero().lemma_nonnegative();
            span.factor.lemma_nonnegative();
            assert(span.factor == F32::zero());
            lemma_nothing_doubled();
            span.spec_len().lemma_product_zero();
            lemma_cost_between(charted, a, p);
            weld::cost_between(charted, a, p).lemma_sum_zero();
        }
    }
}

/// A crossing of one run on one sample costs what the run does.
proof fn lemma_cost(event: DiscEvent, corridor: DiscCorridor, walks: Seq<RayWalk>, touches: Seq<Touch>, to: int, r: usize, a: int, b: int)
    requires
        corridor.samples@.len() == 1,
        walks.len() == 1,
        touches.len() == 1,
        touches[0].sample == 0,
        touches[0].runs@ == seq![r],
        r < walks[0].runs@.len(),
        event::is_event(event, corridor, walks, touches),
        event.start == walks[0].runs@[r as int].start,
        event.end == walks[0].runs@[r as int].end,
        is_paved(walks[0].spans@, to),
        are_proper(walks[0].spans@),
        0 <= a < b <= walks[0].spans@.len(),
        walks[0].runs@[r as int].start == walks[0].spans@[a].start,
        walks[0].runs@[r as int].end == walks[0].spans@[b - 1].end,
        forall|p: int| a <= p < b ==> has_middle(#[trigger] walks[0].spans@[p]),
    ensures
        event.cost == weld::cost_between(walks[0].spans@, a, b).halved(),
{
    let charted = walks[0].spans@;
    let run = walks[0].runs@[r as int];
    let marks = profile::run_marks(charted, run, charted.len() as int);
    reveal_with_fuel(profile::marks_of, 2);
    reveal_with_fuel(profile::sample_marks, 2);
    assert(touches[0].runs@[0] == r);
    assert(profile::marks_of(walks, touches, 1) =~= marks);
    let ts = event.profile.ts@;
    lemma_profile_breaks(ts, charted, to, run, a, b);
    lemma_cumulative(walks, touches, to, r, a, b, b - a);
    let last = event.profile.cumulative@.len() - 1;
    assert(last == b - a);
    assert(event.profile.cumulative@[last] == profile::cumulative_at(walks, touches, ts, 1, last));
}

/// The span is one of the run's.
pub open spec fn is_part_of(span: Span, run: WeldedRun) -> bool {
    run.start.at_most(span.start) && span.end.at_most(run.end)
}

/// A disc of one ray never lacks an entry normal.
proof fn lemma_one_sample_crosses(
    corridor: DiscCorridor,
    laws: WalkLaws,
    rows: Seq<(Entity, F32)>,
    factors: Map<Entity, F32>,
    error: WalkError,
)
    requires
        corridor.samples@.len() == 1,
    ensures
        !disc_walk::disc_degenerates(corridor, laws, rows, factors, error),
{
    if disc_walk::disc_degenerates(corridor, laws, rows, factors, error) {
        let (walks, labels, ranks, events, i) = choose|
            walks: Seq<RayWalk>,
            labels: Seq<usize>,
            ranks: Seq<int>,
            events: Seq<DiscEvent>,
            i: int,
        | #[trigger]
            disc_walk::degenerates_at(corridor, laws, rows, factors, walks, labels, ranks, events, i, error);
        let nodes = association::nodes_upto(walks, walks.len() as int);
        let root = disc_walk::roots_of(labels, labels.len() as int)[i];
        crossings::lemma_roots(labels, labels.len() as int);
        let touches = choose|touches: Seq<Touch>|
            {
                &&& #[trigger] disc_walk::is_cluster(touches, nodes, labels, root)
                &&& event::is_degenerate(walks, touches)
                &&& error == (WalkError::DegenerateEntryNormal {
                    coverage: extent::share_of(touches.len(), corridor.samples@.len()),
                })
            };
        crossings::lemma_cluster(touches, corridor, walks, labels, root);
        assert(touches[0].sample < 1);
        if touches.len() > 1 {
            assert(touches[1].sample < 1);
            assert(touches[0].sample < touches[1].sample);
        }
    }
}

/// A disc of one ray is that ray, to the bit: where the ray walks the disc does. It has a
/// crossing for each run of the ray, in order, and each enters, leaves and costs as its run
/// does, wholly covered. Of a cost this is said where every span of the run has a middle.
pub proof fn law_a_fragment_is_its_ray(
    result: Result<DiscWalk, WalkError>,
    corridor: DiscCorridor,
    laws: WalkLaws,
    volumes: VolumeTable,
)
    requires
        disc_walk::is_walked(result, corridor, laws, volumes),
        table::ordered(volumes.spec_rows()),
        corridor.samples@.len() == 1,
        corridor.samples@[0].offset.equals(Vec3::zero()),
        disc_walk::walkable(corridor, laws, volumes@, 0),
    ensures
        result matches Ok(walk) && {
            let (ray, events) = (walk.walks@[0], walk.events@);
            &&& ray::is_walk(ray, disc_walk::sample_corridor(corridor, 0), laws, volumes.spec_rows(), volumes@)
            &&& events.len() == ray.runs@.len()
            &&& forall|i: int| 0 <= i < events.len() ==> is_run(#[trigger] events[i], ray.runs@[i])
            &&& forall|i: int|
                0 <= i < events.len() && (forall|p: int|
                    0 <= p < ray.spans@.len() && is_part_of(#[trigger] ray.spans@[p], ray.runs@[i]) ==> has_middle(
                        ray.spans@[p],
                    )) ==> (#[trigger] events[i]).cost == ray.runs@[i].cost
        },
{
    let (rows, factors) = (volumes.spec_rows(), volumes@);
    if let Err(error) = result {
        lemma_one_sample_crosses(corridor, laws, rows, factors, error);
    }
    let walk = result->Ok_0;
    let walks = walk.walks@;
    let own = disc_walk::sample_corridor(corridor, 0);
    let charted = walks[0].spans@;
    let to = own.length.doubled().value();
    assert(walks[0].runs.len() == walks[0].runs@.len());
    lemma_crossings_are_runs(walk, corridor, laws, rows, factors);
    assert(ray::is_walk(walks[0], own, laws, rows, factors));
    lemma_paved(walks[0], own, laws, rows, factors);
    assert forall|i: int|
        0 <= i < walk.events@.len() && (forall|p: int|
            0 <= p < charted.len() && is_part_of(#[trigger] charted[p], walks[0].runs@[i]) ==> has_middle(charted[p])) implies (
    #[trigger] walk.events@[i]).cost == walks[0].runs@[i].cost by {
        let event = walk.events@[i];
        assert(is_built_from_run(event, corridor, walks, i as usize));
        let touches = choose|touches: Seq<Touch>|
            {
                &&& touches.len() == 1
                &&& touches[0].sample == 0
                &&& touches[0].runs@ == seq![i as usize]
                &&& #[trigger] event::is_event(event, corridor, walks, touches)
            };
        lemma_places(walks[0], own, laws, rows, factors, i);
        let (a, b) = places_of(walks[0], own, laws, rows, i);
        assert forall|p: int| a <= p < b implies has_middle(#[trigger] charted[p]) by {
            laws::lemma_forward(charted, 0, to, p);
            if a < p {
                lemma_rising(charted, 0, to, a, p);
            }
            if p < b - 1 {
                lemma_rising(charted, 0, to, p, b - 1);
                laws::lemma_forward(charted, 0, to, b - 1);
            }
            assert(is_part_of(charted[p], walks[0].runs@[i]));
        }
        lemma_cost(event, corridor, walks, touches, to, i as usize, a, b);
    }
}

/// A ray's spans are paved and proper.
pub(crate) proof fn lemma_paved(
    walk: RayWalk,
    corridor: RayCorridor,
    laws: WalkLaws,
    rows: Seq<(Entity, F32)>,
    factors: Map<Entity, F32>,
)
    requires
        ray::is_walk(walk, corridor, laws, rows, factors),
        ray::has_form(corridor),
        table::ordered(rows),
    ensures
        is_paved(walk.spans@, corridor.length.doubled().value()),
        are_proper(walk.spans@),
{
    let charted = walk.spans@;
    assert forall|i: int| 0 <= i < charted.len() implies {
        let span = #[trigger] charted[i];
        &&& span.start.below(span.end)
        &&& span.start.finite() && span.end.finite()
        &&& span.end.difference(span.start).finite()
        &&& span.factor.finite()
        &&& !span.factor.negative()
    } by {
        laws::lemma_proper(walk, corridor, laws, rows, factors, i);
    }
    laws::lemma_first_start(walk, corridor, laws, rows, factors);
}

} // verus!
