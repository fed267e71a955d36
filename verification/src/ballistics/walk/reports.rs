//! What a walk reports of the field: a step exactly where there is material, and
//! each volume's presence exactly where one of its shells is.

use crate::ballistics::walk::events;
use crate::ballistics::walk::field;
use crate::ballistics::walk::field::Interval;
use crate::ballistics::walk::laws;
use crate::ballistics::walk::presence;
use crate::ballistics::walk::presence::EntityPresence;
use crate::ballistics::walk::ray;
use crate::ballistics::walk::ray::RayWalk;
use crate::ballistics::walk::spans;
use crate::ballistics::walk::spans::Span;
use crate::ballistics::walk::table;
use crate::ballistics::walk::topology;
use crate::ballistics::walk::topology::Toggle;
use crate::ballistics::walk::vocabulary::{Entity, FaceHit, RayCorridor, ShellKey, WalkLaws};
use crate::ballistics::walk::weld;
use crate::ballistics::walk::weld::{Scene, WeldedRun};
use crate::float::{F32, F64};
use crate::vector::Vec3;
use vstd::arithmetic::power2::*;
use vstd::prelude::*;

verus! {

/// Some stretch of the ray is in material.
pub open spec fn meets_material(charted: Seq<Span>) -> bool {
    exists|i: int| 0 <= i < charted.len() && (#[trigger] charted[i]).is_material()
}

proof fn lemma_runs_met(charted: Seq<Span>, i: int)
    requires
        0 <= i <= charted.len() <= usize::MAX,
    ensures
        weld::runs_from(charted, i).len() > 0 <==> exists|x: int|
            i <= x < charted.len() && (#[trigger] charted[x]).is_material(),
        weld::runs_from(charted, i).len() > 0 ==> {
            let first = weld::runs_from(charted, i)[0];
            first.0 < charted.len() && charted[first.0 as int].is_material() && first.0 < first.1
        },
    decreases charted.len() - i,
{
    if i < charted.len() {
        weld::lemma_run_end(charted, i);
        if !charted[i].is_material() {
            lemma_runs_met(charted, i + 1);
        }
    }
}

proof fn lemma_first_group(scene: Scene, r: int, first: int, spent: F64)
    requires
        0 <= r < scene.runs.len(),
    ensures
        scene.groups_from(r, first, spent).len() > 0,
        scene.groups_from(r, first, spent)[0].0 == first,
        r <= scene.groups_from(r, first, spent)[0].1 < scene.runs.len(),
    decreases scene.runs.len() - r,
{
    if r + 1 < scene.runs.len() && scene.welds(r, spent) {
        lemma_first_group(scene, r + 1, first, spent.sum(scene.gap_across(r)));
    }
}

proof fn lemma_segments_met(charted: Seq<Span>, a: int, n: int)
    requires
        0 <= a < n <= charted.len(),
        charted[a].is_material(),
    ensures
        weld::segments_of(charted, a, n).len() > 0,
    decreases n - a,
{
    if n > a + 1 {
        lemma_segments_met(charted, a, n - 1);
    }
}

proof fn lemma_events_grow(runs: Seq<WeldedRun>, origin: Vec3, axis: Vec3, n: int)
    requires
        1 <= n <= runs.len(),
        runs[0].segments@.len() > 0,
    ensures
        events::events_upto(runs, origin, axis, n).len() > 0,
    decreases n,
{
    if n > 1 {
        lemma_events_grow(runs, origin, axis, n - 1);
    } else {
        assert(events::events_upto(runs, origin, axis, 0).len() == 0);
        assert(events::run_events(runs[0], 0, origin, axis).len() > 0);
    }
}

proof fn lemma_steps(scene: Scene, runs: Seq<WeldedRun>, intervals: Seq<Interval>, origin: Vec3)
    requires
        scene.spans.len() <= usize::MAX,
        scene.runs == weld::runs_from(scene.spans, 0),
        runs.len() == scene.groups().len(),
        runs.len() > 0 ==> weld::is_welded(runs[0], scene, intervals, scene.groups()[0]),
    ensures
        events::events_upto(runs, origin, scene.axis, runs.len() as int).len() > 0 <==> meets_material(scene.spans),
{
    let charted = scene.spans;
    lemma_runs_met(charted, 0);
    if scene.runs.len() > 0 {
        lemma_first_group(scene, 0, 0, F64::zero());
        weld::lemma_runs_fit(charted, 0);
        let group = scene.groups()[0];
        if group.1 > 0 {
            assert(scene.runs[0].1 < scene.runs[group.1].0);
        }
        lemma_segments_met(charted, scene.runs[0].0 as int, scene.runs[group.1].1 as int);
        lemma_events_grow(runs, origin, scene.axis, runs.len() as int);
    } else {
        assert(scene.groups().len() == 0);
    }
}

/// No material is passed in silence, and no step is made up: a walk reports a step if
/// and only if some stretch of the ray is in material.
#[verifier::spinoff_prover]
#[verifier::rlimit(30)]
pub proof fn law_steps_exactly_where_material(
    walk: RayWalk,
    corridor: RayCorridor,
    laws: WalkLaws,
    rows: Seq<(Entity, F32)>,
    factors: Map<Entity, F32>,
)
    requires
        ray::is_walk(walk, corridor, laws, rows, factors),
    ensures
        walk.events@.len() > 0 <==> meets_material(walk.spans@),
{
    let scene = Scene {
        spans: walk.spans@,
        runs: weld::runs_from(walk.spans@, 0),
        transitions: field::transitions_from(
            rows,
            ray::crossings_of(corridor, laws),
            corridor.initial_presence@,
            0,
        ),
        axis: corridor.axis,
        laws,
    };
    assert(walk.spans.len() == walk.spans@.len());
    lemma_steps(scene, walk.runs@, ray::intervals_of(corridor, laws), corridor.origin);
}

proof fn lemma_union_positive(rows: Seq<(Entity, F32)>, intervals: Seq<Interval>, x: int, n: int)
    requires
        0 <= n <= rows.len(),
        table::ordered(rows),
    ensures
        F32::zero().below(spans::union_of(rows, intervals, x, n)) <==> exists|i: int|
            0 <= i < n && spans::volume_covered(intervals, (#[trigger] rows[i]).0, x) && F32::zero().below(rows[i].1),
        !spans::union_of(rows, intervals, x, n).is_nan(),
    decreases n,
{
    F32::zero().lemma_nonnegative();
    if n > 0 {
        lemma_union_positive(rows, intervals, x, n - 1);
        let rest = spans::union_of(rows, intervals, x, n - 1);
        if F32::zero().below(rest) {
            let i = choose|i: int|
                0 <= i < n - 1 && spans::volume_covered(intervals, (#[trigger] rows[i]).0, x) && F32::zero().below(
                    rows[i].1,
                );
            assert(spans::volume_covered(intervals, rows[i].0, x));
        }
        assert(rows[n - 1].1.finite());
    }
}

/// A stretch is in material exactly where a volume of positive factor is present: at
/// every position that the stretch holds.
pub proof fn law_material_is_presence(
    walk: RayWalk,
    corridor: RayCorridor,
    laws: WalkLaws,
    rows: Seq<(Entity, F32)>,
    factors: Map<Entity, F32>,
    i: int,
    x: int,
)
    requires
        table::ordered(rows),
        ray::is_walk(walk, corridor, laws, rows, factors),
        0 <= i < walk.spans@.len(),
        walk.spans@[i].holds(x),
    ensures
        walk.spans@[i].is_material() <==> exists|r: int|
            0 <= r < rows.len() && spans::volume_covered(ray::intervals_of(corridor, laws), (#[trigger] rows[r]).0, x)
                && F32::zero().below(rows[r].1),
{
    lemma_union_positive(rows, ray::intervals_of(corridor, laws), x, rows.len() as int);
    assert(walk.spans@[i].factor == spans::union_factor(rows, ray::intervals_of(corridor, laws), x));
}

/// The crossings of a well formed corridor are in order and inside it.
pub proof fn lemma_crossings(corridor: RayCorridor, laws: WalkLaws)
    requires
        ray::has_form(corridor),
    ensures
        topology::in_toggle_order(ray::crossings_of(corridor, laws)),
        spans::within(ray::crossings_of(corridor, laws), corridor.length.doubled()),
{
    broadcast use vstd::seq_lib::group_to_multiset_ensures;

    let toggles = ray::crossings_of(corridor, laws);
    let hits = ray::ordered_hits(corridor);
    let length = corridor.length.doubled();
    let kept = topology::kept(corridor.hits@, length);
    ray::lemma_ordered_hits(corridor);
    topology::lemma_crossings_order(hits, corridor.axis, laws.tangent_cos, 0);
    F64::zero().lemma_nonnegative();
    assert forall|i: int| 0 <= i < toggles.len() implies !(#[trigger] toggles[i]).t.is_nan() && 0 <= toggles[i].t.value()
        < length.value() by {
        let y = choose|y: int|
            0 <= y < hits.len() && (#[trigger] hits[y]).t == toggles[i].t && hits[y].spec_key() == toggles[i].key;
        assert(hits.contains(hits[y]));
        assert(hits.to_multiset().count(hits[y]) > 0);
        assert(kept.contains(hits[y]));
        lemma_kept(corridor.hits@, length, hits[y]);
        let z = choose|z: int| 0 <= z < corridor.hits@.len() && corridor.hits@[z] == hits[y];
        assert(corridor.hits@[z].t.below(length));
    }
}

proof fn lemma_kept(hits: Seq<FaceHit>, length: F64, hit: FaceHit)
    requires
        topology::kept(hits, length).contains(hit),
    ensures
        hits.contains(hit),
        hit.t.below(length),
{
    broadcast use vstd::seq_lib::group_to_multiset_ensures;

    let kept = topology::kept(hits, length);
    laws::lemma_filter_count(hits, |hit: FaceHit| hit.t.below(length), hit);
    assert(kept.to_multiset().count(hit) > 0);
}

/// A volume's presence is the union of its own stretches: it holds a position exactly
/// where some shell of the volume does, each position once.
pub proof fn law_presence_is_the_union(
    walk: RayWalk,
    corridor: RayCorridor,
    laws: WalkLaws,
    rows: Seq<(Entity, F32)>,
    factors: Map<Entity, F32>,
    i: int,
    x: int,
)
    requires
        ray::has_form(corridor),
        ray::pairs(corridor, laws, factors),
        ray::is_walk(walk, corridor, laws, rows, factors),
        0 <= i < walk.presence@.len(),
    ensures
        presence::pair_covered(walk.presence@[i].spans@, x) <==> spans::volume_covered(
            ray::intervals_of(corridor, laws),
            walk.presence@[i].entity,
            x,
        ),
        forall|j: int|
            0 <= j < walk.presence@[i].spans@.len() - 1 ==> (#[trigger] walk.presence@[i].spans@[j]).1.value()
                < walk.presence@[i].spans@[j + 1].0.value(),
{
    lemma_crossings(corridor, laws);
    let toggles = ray::crossings_of(corridor, laws);
    field::lemma_closed(toggles, corridor.initial_presence@, factors, toggles.len() as int);
    lemma_presence(walk.presence@[i], ray::intervals_of(corridor, laws), factors, x);
}

proof fn lemma_presence(met: EntityPresence, intervals: Seq<Interval>, factors: Map<Entity, F32>, x: int)
    requires
        presence::is_presence(met, intervals, factors),
        forall|a: int|
            0 <= a < intervals.len() ==> !(#[trigger] intervals[a]).open.is_nan() && !intervals[a].close.is_nan()
                && intervals[a].open.value() <= intervals[a].close.value(),
    ensures
        presence::pair_covered(met.spans@, x) <==> spans::volume_covered(intervals, met.entity, x),
        forall|j: int|
            0 <= j < met.spans@.len() - 1 ==> (#[trigger] met.spans@[j]).1.value() < met.spans@[j + 1].0.value(),
{
    broadcast use vstd::seq_lib::group_to_multiset_ensures;

    let own = presence::volume_spans(intervals, met.entity, intervals.len() as int);
    let ordered = choose|ordered: Seq<(F64, F64)>|
        {
            &&& #[trigger] presence::in_pair_order(ordered)
            &&& ordered.to_multiset() == own.to_multiset()
            &&& met.spans@ == presence::merged(ordered, ordered.len() as int)
        };
    lemma_own_proper(intervals, met.entity, intervals.len() as int);
    assert forall|i: int| 0 <= i < ordered.len() implies own.contains(#[trigger] ordered[i]) by {
        assert(ordered.contains(ordered[i]));
        assert(ordered.to_multiset().count(ordered[i]) > 0);
    }
    assert(presence::proper(ordered)) by {
        assert forall|i: int| 0 <= i < ordered.len() implies !(#[trigger] ordered[i]).0.is_nan()
            && !ordered[i].1.is_nan() && ordered[i].0.value() <= ordered[i].1.value() by {
            assert(own.contains(ordered[i]));
            let j = choose|j: int| 0 <= j < own.len() && own[j] == ordered[i];
            assert(!own[j].0.is_nan());
        }
    }
    presence::lemma_merged(ordered, ordered.len() as int);
    assert(ordered.take(ordered.len() as int) =~= ordered);
    presence::lemma_volume_spans(intervals, met.entity, intervals.len() as int, x);
    assert(intervals.take(intervals.len() as int) =~= intervals);
    if presence::pair_covered(ordered, x) {
        let i = choose|i: int| 0 <= i < ordered.len() && (#[trigger] ordered[i]).0.value() <= x < ordered[i].1.value();
        assert(own.contains(ordered[i]));
        let j = choose|j: int| 0 <= j < own.len() && own[j] == ordered[i];
        assert(own[j].0.value() <= x < own[j].1.value());
    }
    if presence::pair_covered(own, x) {
        let j = choose|j: int| 0 <= j < own.len() && (#[trigger] own[j]).0.value() <= x < own[j].1.value();
        assert(own.contains(own[j]));
        assert(own.to_multiset().count(own[j]) > 0);
        assert(ordered.contains(own[j]));
        let i = choose|i: int| 0 <= i < ordered.len() && ordered[i] == own[j];
        assert(ordered[i].0.value() <= x < ordered[i].1.value());
    }
}

proof fn lemma_own_proper(intervals: Seq<Interval>, volume: Entity, n: int)
    requires
        0 <= n <= intervals.len(),
        forall|a: int|
            0 <= a < intervals.len() ==> !(#[trigger] intervals[a]).open.is_nan() && !intervals[a].close.is_nan()
                && intervals[a].open.value() <= intervals[a].close.value(),
    ensures
        presence::proper(presence::volume_spans(intervals, volume, n)),
    decreases n,
{
    if n > 0 {
        lemma_own_proper(intervals, volume, n - 1);
        let rest = presence::volume_spans(intervals, volume, n - 1);
        let all = presence::volume_spans(intervals, volume, n);
        assert forall|i: int| 0 <= i < all.len() implies !(#[trigger] all[i]).0.is_nan() && !all[i].1.is_nan()
            && all[i].0.value() <= all[i].1.value() by {
            if i < rest.len() {
                assert(all[i] == rest[i]);
            } else {
                assert(all[i] == (intervals[n - 1].open, intervals[n - 1].close));
            }
        }
    }
}

/// Some stretch holds every position of the corridor.
proof fn lemma_some_span(charted: Seq<Span>, to: int, x: int, n: int) -> (i: int)
    requires
        spans::tiles(charted, 0, to),
        0 <= x,
        1 <= n <= charted.len(),
        x < charted[n - 1].end.value(),
    ensures
        0 <= i < n,
        charted[i].holds(x),
    decreases n,
{
    if charted[n - 1].start.value() <= x {
        n - 1
    } else if n == 1 {
        0
    } else {
        assert(charted[n - 2].end == charted[(n - 2) + 1].start);
        lemma_some_span(charted, to, x, n - 1)
    }
}

/// The stretches are finite and none ends before it starts.
spec fn ends_rise(pairs: Seq<(F64, F64)>) -> bool {
    forall|i: int|
        0 <= i < pairs.len() ==> (#[trigger] pairs[i]).0.finite() && pairs[i].1.finite() && pairs[i].0.value()
            <= pairs[i].1.value()
}

/// The whole length is above zero exactly where some stretch has length.
proof fn lemma_chord(pairs: Seq<(F64, F64)>, n: int)
    requires
        0 <= n <= pairs.len(),
        ends_rise(pairs),
    ensures
        !presence::chord_of(pairs, n).is_nan(),
        presence::chord_of(pairs, n).value() >= 0,
        presence::chord_of(pairs, n).value() > 0 <==> exists|i: int|
            0 <= i < n && (#[trigger] pairs[i]).0.value() < pairs[i].1.value(),
    decreases n,
{
    F64::zero().lemma_nonnegative();
    if n > 0 {
        lemma_chord(pairs, n - 1);
        let rest = presence::chord_of(pairs, n - 1);
        let (a, b) = pairs[n - 1];
        b.lemma_difference_finite(a);
        b.lemma_difference_sign(a);
        let d = b.difference(a);
        lemma_sum_of_nonnegative(rest, d);
        rest.lemma_sum_sign(d);
    }
}

proof fn lemma_sum_of_nonnegative(a: F64, b: F64)
    requires
        !a.is_nan(),
        !b.is_nan(),
        a.value() >= 0,
        b.value() >= 0,
    ensures
        !a.sum(b).is_nan(),
{
    a.lemma_nonnegative();
    b.lemma_nonnegative();
    a.lemma_sum_number(b);
}

/// The presence's stretches are finite, and inside the corridor.
proof fn lemma_presence_ends(
    met: EntityPresence,
    corridor: RayCorridor,
    laws: WalkLaws,
    factors: Map<Entity, F32>,
)
    requires
        ray::has_form(corridor),
        ray::pairs(corridor, laws, factors),
        presence::is_presence(met, ray::intervals_of(corridor, laws), factors),
    ensures
        ends_rise(met.spans@),
{
    broadcast use vstd::seq_lib::group_to_multiset_ensures;

    let toggles = ray::crossings_of(corridor, laws);
    let intervals = ray::intervals_of(corridor, laws);
    lemma_crossings(corridor, laws);
    field::lemma_closed(toggles, corridor.initial_presence@, factors, toggles.len() as int);
    let own = presence::volume_spans(intervals, met.entity, intervals.len() as int);
    let ordered = choose|ordered: Seq<(F64, F64)>|
        {
            &&& #[trigger] presence::in_pair_order(ordered)
            &&& ordered.to_multiset() == own.to_multiset()
            &&& met.spans@ == presence::merged(ordered, ordered.len() as int)
        };
    lemma_intervals_end(corridor, laws);
    lemma_own_ends(intervals, met.entity, intervals.len() as int);
    assert forall|i: int| 0 <= i < ordered.len() implies (#[trigger] ordered[i]).0.finite() && ordered[i].1.finite()
        && ordered[i].0.value() <= ordered[i].1.value() by {
        assert(ordered.contains(ordered[i]));
        assert(ordered.to_multiset().count(ordered[i]) > 0);
        assert(own.contains(ordered[i]));
        let j = choose|j: int| 0 <= j < own.len() && own[j] == ordered[i];
        assert(own[j].0.finite());
    }
    lemma_merged_ends(ordered, ordered.len() as int);
}

proof fn lemma_own_ends(intervals: Seq<Interval>, volume: Entity, n: int)
    requires
        0 <= n <= intervals.len(),
        forall|a: int|
            0 <= a < intervals.len() ==> (#[trigger] intervals[a]).open.finite() && intervals[a].close.finite()
                && intervals[a].open.value() <= intervals[a].close.value(),
    ensures
        ends_rise(presence::volume_spans(intervals, volume, n)),
    decreases n,
{
    if n > 0 {
        lemma_own_ends(intervals, volume, n - 1);
        let rest = presence::volume_spans(intervals, volume, n - 1);
        let all = presence::volume_spans(intervals, volume, n);
        assert forall|i: int| 0 <= i < all.len() implies (#[trigger] all[i]).0.finite() && all[i].1.finite()
            && all[i].0.value() <= all[i].1.value() by {
            if i < rest.len() {
                assert(all[i] == rest[i]);
            } else {
                assert(all[i] == (intervals[n - 1].open, intervals[n - 1].close));
            }
        }
    }
}

proof fn lemma_merged_ends(pairs: Seq<(F64, F64)>, n: int)
    requires
        ends_rise(pairs),
        0 <= n <= pairs.len(),
    ensures
        ends_rise(presence::merged(pairs, n)),
    decreases n,
{
    if n > 0 {
        lemma_merged_ends(pairs, n - 1);
        let rest = presence::merged(pairs, n - 1);
        let all = presence::merged(pairs, n);
        let pair = pairs[n - 1];
        assert forall|i: int| 0 <= i < all.len() implies (#[trigger] all[i]).0.finite() && all[i].1.finite()
            && all[i].0.value() <= all[i].1.value() by {
            if i < rest.len() - 1 {
                assert(all[i] == rest[i]);
            } else if i < rest.len() {
                assert(rest[i].0.finite());
            }
        }
    }
}

/// Every stretch of presence starts and ends inside the corridor.
proof fn lemma_intervals_end(corridor: RayCorridor, laws: WalkLaws)
    requires
        ray::has_form(corridor),
    ensures
        forall|a: int|
            0 <= a < ray::intervals_of(corridor, laws).len() ==> {
                let interval = #[trigger] ray::intervals_of(corridor, laws)[a];
                &&& interval.close.finite()
                &&& interval.close.value() < corridor.length.doubled().value()
                &&& interval.open.finite()
            },
{
    lemma_crossings(corridor, laws);
    let toggles = ray::crossings_of(corridor, laws);
    corridor.length.lemma_doubled();
    lemma_closed_ends(toggles, corridor.length.doubled(), toggles.len() as int);
}

proof fn lemma_opened_ends(toggles: Seq<Toggle>, length: F64, n: int, key: ShellKey)
    requires
        spans::within(toggles, length),
        length.finite(),
        0 <= n <= toggles.len(),
    ensures
        field::opened_at(toggles, n, key).finite(),
    decreases n,
{
    if n > 0 {
        lemma_opened_ends(toggles, length, n - 1, key);
        toggles[n - 1].t.lemma_under(length);
    }
}

proof fn lemma_closed_ends(toggles: Seq<Toggle>, length: F64, n: int)
    requires
        spans::within(toggles, length),
        length.finite(),
        0 <= n <= toggles.len(),
    ensures
        forall|a: int|
            0 <= a < field::closed_by(toggles, n).len() ==> {
                let interval = #[trigger] field::closed_by(toggles, n)[a];
                &&& interval.close.finite()
                &&& interval.close.value() < length.value()
                &&& interval.open.finite()
            },
    decreases n,
{
    if n > 0 {
        lemma_closed_ends(toggles, length, n - 1);
        toggles[n - 1].t.lemma_under(length);
        lemma_opened_ends(toggles, length, n - 1, toggles[n - 1].key);
        let rest = field::closed_by(toggles, n - 1);
        let all = field::closed_by(toggles, n);
        assert forall|a: int| 0 <= a < all.len() implies (#[trigger] all[a]).close.finite() && all[a].close.value()
            < length.value() && all[a].open.finite() by {
            if a < rest.len() {
                assert(all[a] == rest[a]);
            }
        }
    }
}

/// Every volume of the table has a positive factor.
pub open spec fn all_positive(rows: Seq<(Entity, F32)>) -> bool {
    forall|i: int| 0 <= i < rows.len() ==> F32::zero().below((#[trigger] rows[i]).1)
}

/// A ray that went through a volume of positive factor reports a step: what has a chord
/// is never crossed in silence.
pub proof fn law_no_silent_penetration(
    walk: RayWalk,
    corridor: RayCorridor,
    laws: WalkLaws,
    rows: Seq<(Entity, F32)>,
    factors: Map<Entity, F32>,
    i: int,
)
    requires
        table::ordered(rows),
        factors == table::tabled(rows),
        all_positive(rows),
        ray::has_form(corridor),
        ray::pairs(corridor, laws, factors),
        ray::is_walk(walk, corridor, laws, rows, factors),
        0 <= i < walk.presence@.len(),
        F32::zero().below(walk.presence@[i].chord),
    ensures
        walk.events@.len() > 0,
{
    let met = walk.presence@[i];
    let intervals = ray::intervals_of(corridor, laws);
    let to = corridor.length.doubled().value();
    lemma_presence_ends(met, corridor, laws, factors);
    lemma_chord(met.spans@, met.spans@.len() as int);
    let chord = presence::chord_of(met.spans@, met.spans@.len() as int);
    if chord.value() <= 0 {
        chord.lemma_halved_sign();
    }
    let k = choose|k: int|
        0 <= k < met.spans@.len() && (#[trigger] met.spans@[k]).0.value() < met.spans@[k].1.value();
    let x = met.spans@[k].0.value();
    assert(presence::pair_covered(met.spans@, x));
    law_presence_is_the_union(walk, corridor, laws, rows, factors, i, x);
    let a = choose|a: int|
        0 <= a < intervals.len() && (#[trigger] intervals[a]).key.volume == met.entity && intervals[a].open.value() <= x
            < intervals[a].close.value();
    lemma_intervals_end(corridor, laws);
    let toggles = ray::crossings_of(corridor, laws);
    lemma_crossings(corridor, laws);
    field::lemma_closed(toggles, corridor.initial_presence@, factors, toggles.len() as int);
    assert(0 <= x < to);
    assert(walk.spans@.len() > 0);
    let s = lemma_some_span(walk.spans@, to, x, walk.spans@.len() as int);
    table::lemma_tabled(rows);
    assert(table::row_of(rows, met.entity));
    let r = choose|r: int| 0 <= r < rows.len() && (#[trigger] rows[r]).0 == met.entity;
    assert(spans::volume_covered(intervals, rows[r].0, x));
    law_material_is_presence(walk, corridor, laws, rows, factors, s, x);
    assert(walk.spans@[s].is_material());
    law_steps_exactly_where_material(walk, corridor, laws, rows, factors);
}

/// A ray that reports a step went through something: no step without a volume whose
/// presence has length.
pub proof fn law_no_fabricated_step(
    walk: RayWalk,
    corridor: RayCorridor,
    laws: WalkLaws,
    rows: Seq<(Entity, F32)>,
    factors: Map<Entity, F32>,
) -> (i: int)
    requires
        table::ordered(rows),
        ray::has_form(corridor),
        ray::pairs(corridor, laws, factors),
        ray::is_walk(walk, corridor, laws, rows, factors),
        walk.events@.len() > 0,
    ensures
        0 <= i < walk.presence@.len(),
        presence::chord_of(walk.presence@[i].spans@, walk.presence@[i].spans@.len() as int).value() > 0,
{
    let intervals = ray::intervals_of(corridor, laws);
    law_steps_exactly_where_material(walk, corridor, laws, rows, factors);
    let s = choose|s: int| 0 <= s < walk.spans@.len() && (#[trigger] walk.spans@[s]).is_material();
    let x = walk.spans@[s].start.value();
    assert(walk.spans@[s].holds(x));
    law_material_is_presence(walk, corridor, laws, rows, factors, s, x);
    let r = choose|r: int|
        0 <= r < rows.len() && spans::volume_covered(intervals, (#[trigger] rows[r]).0, x) && F32::zero().below(
            rows[r].1,
        );
    let volume = rows[r].0;
    let a = choose|a: int|
        0 <= a < intervals.len() && (#[trigger] intervals[a]).key.volume == volume && intervals[a].open.value() <= x
            < intervals[a].close.value();
    assert(presence::volume_met(intervals, volume));
    let i = choose|i: int| 0 <= i < walk.presence@.len() && (#[trigger] walk.presence@[i]).entity == volume;
    law_presence_is_the_union(walk, corridor, laws, rows, factors, i, x);
    let met = walk.presence@[i];
    lemma_presence_ends(met, corridor, laws, factors);
    lemma_chord(met.spans@, met.spans@.len() as int);
    let k = choose|k: int|
        0 <= k < met.spans@.len() && (#[trigger] met.spans@[k]).0.value() <= x < met.spans@[k].1.value();
    assert(met.spans@[k].0.value() < met.spans@[k].1.value());
    i
}

/// A distance that single precision can hold, zero included.
pub open spec fn is_coarse(t: F64) -> bool {
    t.finite() && t.value() % (pow2(925) as int) == 0
}

spec fn coarse_ends(pairs: Seq<(F64, F64)>) -> bool {
    forall|i: int| 0 <= i < pairs.len() ==> is_coarse((#[trigger] pairs[i]).0) && is_coarse(pairs[i].1)
}

proof fn lemma_coarse_zero()
    ensures
        is_coarse(F64::zero()),
{
    F64::zero().lemma_nonnegative();
    lemma_pow2_pos(925);
    assert(0int % (pow2(925) as int) == 0) by (nonlinear_arith)
        requires pow2(925) > 0;
}

proof fn lemma_coarse_opened(toggles: Seq<Toggle>, n: int, key: ShellKey)
    requires
        0 <= n <= toggles.len(),
        forall|i: int| 0 <= i < toggles.len() ==> is_coarse((#[trigger] toggles[i]).t),
    ensures
        is_coarse(field::opened_at(toggles, n, key)),
    decreases n,
{
    lemma_coarse_zero();
    if n > 0 {
        lemma_coarse_opened(toggles, n - 1, key);
    }
}

proof fn lemma_coarse_closed(toggles: Seq<Toggle>, n: int)
    requires
        0 <= n <= toggles.len(),
        forall|i: int| 0 <= i < toggles.len() ==> is_coarse((#[trigger] toggles[i]).t),
    ensures
        forall|a: int|
            0 <= a < field::closed_by(toggles, n).len() ==> is_coarse((#[trigger] field::closed_by(toggles, n)[a]).open)
                && is_coarse(field::closed_by(toggles, n)[a].close),
    decreases n,
{
    if n > 0 {
        lemma_coarse_closed(toggles, n - 1);
        lemma_coarse_opened(toggles, n - 1, toggles[n - 1].key);
        let rest = field::closed_by(toggles, n - 1);
        let all = field::closed_by(toggles, n);
        assert forall|a: int| 0 <= a < all.len() implies is_coarse((#[trigger] all[a]).open) && is_coarse(all[a].close) by {
            if a < rest.len() {
                assert(all[a] == rest[a]);
            }
        }
    }
}

proof fn lemma_coarse_own(intervals: Seq<Interval>, volume: Entity, n: int)
    requires
        0 <= n <= intervals.len(),
        forall|a: int|
            0 <= a < intervals.len() ==> is_coarse((#[trigger] intervals[a]).open) && is_coarse(intervals[a].close),
    ensures
        coarse_ends(presence::volume_spans(intervals, volume, n)),
    decreases n,
{
    if n > 0 {
        lemma_coarse_own(intervals, volume, n - 1);
        let rest = presence::volume_spans(intervals, volume, n - 1);
        let all = presence::volume_spans(intervals, volume, n);
        assert forall|i: int| 0 <= i < all.len() implies is_coarse((#[trigger] all[i]).0) && is_coarse(all[i].1) by {
            if i < rest.len() {
                assert(all[i] == rest[i]);
            } else {
                assert(all[i] == (intervals[n - 1].open, intervals[n - 1].close));
            }
        }
    }
}

proof fn lemma_coarse_merged(pairs: Seq<(F64, F64)>, n: int)
    requires
        coarse_ends(pairs),
        0 <= n <= pairs.len(),
    ensures
        coarse_ends(presence::merged(pairs, n)),
    decreases n,
{
    if n > 0 {
        lemma_coarse_merged(pairs, n - 1);
        let rest = presence::merged(pairs, n - 1);
        let all = presence::merged(pairs, n);
        assert(is_coarse(pairs[n - 1].0));
        assert forall|i: int| 0 <= i < all.len() implies is_coarse((#[trigger] all[i]).0) && is_coarse(all[i].1) by {
            if i < rest.len() - 1 {
                assert(all[i] == rest[i]);
            } else if i < rest.len() {
                assert(is_coarse(rest[i].0));
            }
        }
    }
}

/// A stretch between coarse distances that has length is at least the least single long,
/// and so is the whole.
proof fn lemma_coarse_chord(pairs: Seq<(F64, F64)>, n: int)
    requires
        0 <= n <= pairs.len(),
        ends_rise(pairs),
        coarse_ends(pairs),
        presence::chord_of(pairs, n).value() > 0,
    ensures
        presence::chord_of(pairs, n).value() >= pow2(925),
    decreases n,
{
    lemma_chord(pairs, n);
    if n > 0 {
        lemma_chord(pairs, n - 1);
        let rest = presence::chord_of(pairs, n - 1);
        let (a, b) = pairs[n - 1];
        assert(is_coarse(a) && is_coarse(b));
        let least = (F32 { bits: 1 }).doubled();
        lemma_least();
        lemma_pow2_pos(925);
        b.lemma_difference_finite(a);
        b.lemma_difference_sign(a);
        let d = b.difference(a);
        lemma_sum_of_nonnegative(rest, d);
        rest.lemma_sum_sign(d);
        if b.value() > a.value() {
            let unit = pow2(925) as int;
            assert(b.value() - a.value() >= unit) by (nonlinear_arith)
                requires b.value() % unit == 0, a.value() % unit == 0, b.value() > a.value(), unit > 0;
            b.lemma_difference_reaches(a, least);
        } else {
            lemma_coarse_chord(pairs, n - 1);
        }
        rest.lemma_sum_reaches(d, least);
    } else {
        F64::zero().lemma_nonnegative();
    }
}

proof fn lemma_least()
    ensures
        (F32 { bits: 1 }).doubled().finite(),
        (F32 { bits: 1 }).doubled().value() == pow2(925),
{
    let one = F32 { bits: 1 };
    one.lemma_doubled();
    one.lemma_least();
}

/// Where every face was met at a distance that single precision holds, a ray that
/// reports a step has a volume with a chord.
pub proof fn law_no_fabricated_event(
    walk: RayWalk,
    corridor: RayCorridor,
    laws: WalkLaws,
    rows: Seq<(Entity, F32)>,
    factors: Map<Entity, F32>,
) -> (i: int)
    requires
        table::ordered(rows),
        ray::has_form(corridor),
        ray::pairs(corridor, laws, factors),
        ray::is_walk(walk, corridor, laws, rows, factors),
        forall|h: int| 0 <= h < corridor.hits@.len() ==> is_coarse((#[trigger] corridor.hits@[h]).t),
        walk.events@.len() > 0,
    ensures
        0 <= i < walk.presence@.len(),
        F32::zero().below(walk.presence@[i].chord),
{
    broadcast use vstd::seq_lib::group_to_multiset_ensures;

    let i = law_no_fabricated_step(walk, corridor, laws, rows, factors);
    let met = walk.presence@[i];
    let toggles = ray::crossings_of(corridor, laws);
    let intervals = ray::intervals_of(corridor, laws);
    lemma_coarse_crossings(corridor, laws);
    lemma_coarse_closed(toggles, toggles.len() as int);
    lemma_coarse_own(intervals, met.entity, intervals.len() as int);
    let own = presence::volume_spans(intervals, met.entity, intervals.len() as int);
    let ordered = choose|ordered: Seq<(F64, F64)>|
        {
            &&& #[trigger] presence::in_pair_order(ordered)
            &&& ordered.to_multiset() == own.to_multiset()
            &&& met.spans@ == presence::merged(ordered, ordered.len() as int)
        };
    assert forall|k: int| 0 <= k < ordered.len() implies is_coarse((#[trigger] ordered[k]).0) && is_coarse(
        ordered[k].1,
    ) by {
        assert(ordered.contains(ordered[k]));
        assert(ordered.to_multiset().count(ordered[k]) > 0);
        assert(own.contains(ordered[k]));
        let j = choose|j: int| 0 <= j < own.len() && own[j] == ordered[k];
        assert(is_coarse(own[j].0));
    }
    lemma_coarse_merged(ordered, ordered.len() as int);
    lemma_presence_ends(met, corridor, laws, factors);
    lemma_chord(met.spans@, met.spans@.len() as int);
    lemma_coarse_chord(met.spans@, met.spans@.len() as int);
    presence::chord_of(met.spans@, met.spans@.len() as int).lemma_halved_positive();
    i
}

proof fn lemma_coarse_crossings(corridor: RayCorridor, laws: WalkLaws)
    requires
        ray::has_form(corridor),
        forall|h: int| 0 <= h < corridor.hits@.len() ==> is_coarse((#[trigger] corridor.hits@[h]).t),
    ensures
        forall|i: int|
            0 <= i < ray::crossings_of(corridor, laws).len() ==> is_coarse(
                (#[trigger] ray::crossings_of(corridor, laws)[i]).t,
            ),
{
    broadcast use vstd::seq_lib::group_to_multiset_ensures;

    let toggles = ray::crossings_of(corridor, laws);
    let hits = ray::ordered_hits(corridor);
    let length = corridor.length.doubled();
    let kept = topology::kept(corridor.hits@, length);
    ray::lemma_ordered_hits(corridor);
    topology::lemma_crossings_order(hits, corridor.axis, laws.tangent_cos, 0);
    assert forall|i: int| 0 <= i < toggles.len() implies is_coarse((#[trigger] toggles[i]).t) by {
        let y = choose|y: int|
            0 <= y < hits.len() && (#[trigger] hits[y]).t == toggles[i].t && hits[y].spec_key() == toggles[i].key;
        assert(hits.contains(hits[y]));
        assert(hits.to_multiset().count(hits[y]) > 0);
        assert(kept.contains(hits[y]));
        lemma_kept(corridor.hits@, length, hits[y]);
        let z = choose|z: int| 0 <= z < corridor.hits@.len() && corridor.hits@[z] == hits[y];
        assert(is_coarse(corridor.hits@[z].t));
    }
}

} // verus!
