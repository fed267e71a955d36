//! The profile of a crossing: it runs from the crossing's start to its end without
//! turning back, and reads the samples' field.

use crate::ballistics::walk::budget;
use crate::ballistics::walk::crossings;
use crate::ballistics::walk::disc::{DiscCorridor, DiscEvent, DiscWalk};
use crate::ballistics::walk::disc_walk;
use crate::ballistics::walk::event;
use crate::ballistics::walk::extent;
use crate::ballistics::walk::extent::Touch;
use crate::ballistics::walk::fragment;
use crate::ballistics::walk::laws;
use crate::ballistics::walk::profile;
use crate::ballistics::walk::ray;
use crate::ballistics::walk::ray::RayWalk;
use crate::ballistics::walk::sharing;
use crate::ballistics::walk::spans::Span;
use crate::ballistics::walk::table;
use crate::ballistics::walk::vocabulary::{Entity, RayCorridor, WalkLaws};
use crate::ballistics::walk::weld::WeldedRun;
use crate::float::{F32, F64};
use crate::vector::Vec3;
use vstd::prelude::*;

verus! {

/// A finite distance ahead of the origin.
pub open spec fn is_reached(t: F64) -> bool {
    t.finite() && 0 <= t.value()
}

pub open spec fn are_reached(ts: Seq<F64>) -> bool {
    forall|i: int| 0 <= i < ts.len() ==> is_reached(#[trigger] ts[i])
}

/// The distances of the walk are finite and ahead of the origin, its runs end after they start, and
/// its factors are not negative.
pub open spec fn is_sound(walk: RayWalk) -> bool {
    &&& forall|i: int|
        0 <= i < walk.spans@.len() ==> is_reached((#[trigger] walk.spans@[i]).start) && is_reached(walk.spans@[i].end)
            && walk.spans@[i].factor.finite() && !walk.spans@[i].factor.negative()
    &&& forall|r: int|
        0 <= r < walk.runs@.len() ==> is_reached((#[trigger] walk.runs@[r]).start) && is_reached(walk.runs@[r].end)
            && walk.runs@[r].start.value() < walk.runs@[r].end.value()
}

/// The walks that a crossing is made of are sound, and none of them leaves it before it enters.
pub open spec fn are_sound(walks: Seq<RayWalk>, touches: Seq<Touch>) -> bool {
    &&& forall|i: int|
        0 <= i < touches.len() ==> (#[trigger] touches[i]).sample < walks.len() && touches[i].runs@.len() > 0 && is_sound(
            walks[touches[i].sample as int],
        )
    &&& forall|i: int, r: int|
        0 <= i < touches.len() && 0 <= r < touches[i].runs@.len() ==> (#[trigger] touches[i].runs@[r])
            < walks[touches[i].sample as int].runs@.len()
    &&& forall|i: int|
        0 <= i < touches.len() ==> extent::first_run(walks, #[trigger] touches[i]).start.value() < extent::last_run(
            walks,
            touches[i],
        ).end.value()
}

/// The run starts with span `a` and ends with the one before `b`.
spec fn lies(walk: RayWalk, r: int, a: int, b: int) -> bool {
    &&& 0 <= a < b <= walk.spans@.len()
    &&& walk.runs@[r].start == walk.spans@[a].start
    &&& walk.runs@[r].end == walk.spans@[b - 1].end
}

spec fn has_place(walk: RayWalk, r: int) -> bool {
    exists|a: int, b: int| lies(walk, r, a, b)
}

/// The spans lie end to end at finite distances, and each run is made of some of them.
spec fn is_laid(walk: RayWalk, to: int) -> bool {
    &&& fragment::is_paved(walk.spans@, to)
    &&& fragment::are_proper(walk.spans@)
    &&& forall|i: int|
        0 <= i < walk.spans@.len() ==> is_reached((#[trigger] walk.spans@[i]).start) && is_reached(walk.spans@[i].end)
    &&& forall|r: int| 0 <= r < walk.runs@.len() ==> #[trigger] has_place(walk, r)
    &&& forall|r: int, q: int|
        0 <= r < q < walk.runs@.len() ==> (#[trigger] walk.runs@[r]).start.value() <= (#[trigger] walk.runs@[q]).start.value()
            && walk.runs@[r].end.value() <= walk.runs@[q].start.value()
}

proof fn lemma_laid(
    walk: RayWalk,
    corridor: RayCorridor,
    laws: WalkLaws,
    rows: Seq<(Entity, F32)>,
    factors: Map<Entity, F32>,
)
    requires
        ray::is_walk(walk, corridor, laws, rows, factors),
        ray::has_form(corridor),
        table::ordered(rows),
    ensures
        is_laid(walk, corridor.length.doubled().value()),
{
    let charted = walk.spans@;
    let to = corridor.length.doubled().value();
    fragment::lemma_paved(walk, corridor, laws, rows, factors);
    assert forall|i: int| 0 <= i < charted.len() implies is_reached((#[trigger] charted[i]).start) && is_reached(
        charted[i].end,
    ) by {
        laws::lemma_proper(walk, corridor, laws, rows, factors, i);
    }
    assert forall|r: int| 0 <= r < walk.runs@.len() implies #[trigger] has_place(walk, r) by {
        fragment::lemma_places(walk, corridor, laws, rows, factors, r);
        let (a, b) = fragment::places_of(walk, corridor, laws, rows, r);
        assert(lies(walk, r, a, b));
    }
    assert forall|r: int, q: int| 0 <= r < q < walk.runs@.len() implies (#[trigger] walk.runs@[r]).start.value() <= (
    #[trigger] walk.runs@[q]).start.value() && walk.runs@[r].end.value() <= walk.runs@[q].start.value() by {
        fragment::lemma_runs_apart(walk, corridor, laws, rows, factors, r, q);
        fragment::lemma_runs_rise(walk, corridor, laws, rows, factors, r, q);
        lemma_run_ends(walk, to, r);
        lemma_run_ends(walk, to, q);
        walk.runs@[r].start.lemma_rank(walk.runs@[q].start);
    }
}

/// A run ends after it starts.
proof fn lemma_run_ends(walk: RayWalk, to: int, r: int)
    requires
        fragment::is_paved(walk.spans@, to),
        forall|i: int|
            0 <= i < walk.spans@.len() ==> is_reached((#[trigger] walk.spans@[i]).start) && is_reached(walk.spans@[i].end),
        has_place(walk, r),
    ensures
        is_reached(walk.runs@[r].start),
        is_reached(walk.runs@[r].end),
        walk.runs@[r].start.value() < walk.runs@[r].end.value(),
{
    let (a, b) = choose|a: int, b: int| lies(walk, r, a, b);
    laws::lemma_forward(walk.spans@, 0, to, a);
    laws::lemma_forward(walk.spans@, 0, to, b - 1);
    if a < b - 1 {
        fragment::lemma_rising(walk.spans@, 0, to, a, b - 1);
    }
}

/// The span has a part in the run.
spec fn meets(run: WeldedRun, span: Span) -> bool {
    run.start.below(span.end) && span.start.below(run.end)
}

proof fn lemma_run_marks(charted: Seq<Span>, run: WeldedRun, n: int)
    requires
        0 <= n <= charted.len(),
        forall|i: int| 0 <= i < charted.len() ==> is_reached((#[trigger] charted[i]).start) && is_reached(charted[i].end),
    ensures
        are_reached(profile::run_marks(charted, run, n)),
        forall|i: int|
            0 <= i < n && meets(run, #[trigger] charted[i]) ==> profile::run_marks(charted, run, n).contains(
                charted[i].start,
            ) && profile::run_marks(charted, run, n).contains(charted[i].end),
    decreases n,
{
    if n > 0 {
        lemma_run_marks(charted, run, n - 1);
        let rest = profile::run_marks(charted, run, n - 1);
        let all = profile::run_marks(charted, run, n);
        let span = charted[n - 1];
        assert forall|i: int| 0 <= i < n && meets(run, #[trigger] charted[i]) implies all.contains(charted[i].start)
            && all.contains(charted[i].end) by {
            if i < n - 1 {
                lemma_kept(rest, all, charted[i].start);
                lemma_kept(rest, all, charted[i].end);
            } else {
                assert(all[rest.len() as int] == span.start);
                assert(all[rest.len() as int + 1] == span.end);
            }
        }
    }
}

/// What a list holds, a longer one that starts with it holds.
proof fn lemma_kept(rest: Seq<F64>, all: Seq<F64>, t: F64)
    requires
        rest.len() <= all.len(),
        forall|i: int| 0 <= i < rest.len() ==> #[trigger] all[i] == rest[i],
        rest.contains(t),
    ensures
        all.contains(t),
{
    let i = choose|i: int| 0 <= i < rest.len() && rest[i] == t;
    assert(all[i] == t);
}

proof fn lemma_later(rest: Seq<F64>, own: Seq<F64>, t: F64)
    requires
        own.contains(t),
    ensures
        (rest + own).contains(t),
{
    let i = choose|i: int| 0 <= i < own.len() && own[i] == t;
    assert((rest + own)[rest.len() + i] == t);
}

proof fn lemma_sample_marks(walk: RayWalk, runs: Seq<usize>, n: int)
    requires
        0 <= n <= runs.len(),
        is_sound(walk),
    ensures
        are_reached(profile::sample_marks(walk, runs, n)),
        forall|r: int, i: int|
            0 <= r < n && 0 <= i < walk.spans@.len() && #[trigger] meets(
                walk.runs@[runs[r] as int],
                walk.spans@[i],
            ) ==> profile::sample_marks(walk, runs, n).contains(walk.spans@[i].start) && profile::sample_marks(
                walk,
                runs,
                n,
            ).contains(walk.spans@[i].end),
    decreases n,
{
    if n > 0 {
        lemma_sample_marks(walk, runs, n - 1);
        let charted = walk.spans@;
        let rest = profile::sample_marks(walk, runs, n - 1);
        let run = walk.runs@[runs[n - 1] as int];
        let own = profile::run_marks(charted, run, charted.len() as int);
        let all = profile::sample_marks(walk, runs, n);
        lemma_run_marks(charted, run, charted.len() as int);
        assert(all == rest + own);
        assert forall|i: int| 0 <= i < all.len() implies is_reached(#[trigger] all[i]) by {
            if i < rest.len() {
                assert(all[i] == rest[i]);
            } else {
                assert(all[i] == own[i - rest.len()]);
            }
        }
        assert forall|r: int, i: int|
            0 <= r < n && 0 <= i < charted.len() && #[trigger] meets(walk.runs@[runs[r] as int], charted[i]) implies all.contains(
            charted[i].start,
        ) && all.contains(charted[i].end) by {
            if r < n - 1 {
                lemma_kept(rest, all, charted[i].start);
                lemma_kept(rest, all, charted[i].end);
            } else {
                lemma_later(rest, own, charted[i].start);
                lemma_later(rest, own, charted[i].end);
            }
        }
    }
}

/// What is asked of a crossing's samples.
pub(crate) closed spec fn are_laid(walks: Seq<RayWalk>, touches: Seq<Touch>, to: int) -> bool {
    &&& forall|i: int|
        0 <= i < touches.len() ==> (#[trigger] touches[i]).sample < walks.len() && touches[i].runs@.len() > 0 && is_laid(
            walks[touches[i].sample as int],
            to,
        )
    &&& forall|i: int, r: int|
        0 <= i < touches.len() && 0 <= r < touches[i].runs@.len() ==> (#[trigger] touches[i].runs@[r])
            < walks[touches[i].sample as int].runs@.len()
    &&& crossings::runs_rise(touches)
}

proof fn lemma_sound(walks: Seq<RayWalk>, touches: Seq<Touch>, to: int)
    requires
        are_laid(walks, touches, to),
    ensures
        are_sound(walks, touches),
{
    assert forall|i: int| 0 <= i < touches.len() implies is_sound(walks[(#[trigger] touches[i]).sample as int])
        && extent::first_run(walks, touches[i]).start.value() < extent::last_run(walks, touches[i]).end.value() by {
        let touch = touches[i];
        let walk = walks[touch.sample as int];
        assert forall|r: int| 0 <= r < walk.runs@.len() implies is_reached((#[trigger] walk.runs@[r]).start)
            && is_reached(walk.runs@[r].end) && walk.runs@[r].start.value() < walk.runs@[r].end.value() by {
            assert(has_place(walk, r));
            lemma_run_ends(walk, to, r);
        }
        let last = touch.runs@.len() - 1;
        assert(touches[i].runs@[0] < walk.runs@.len());
        assert(touches[i].runs@[last] < walk.runs@.len());
        if last > 0 {
            assert(touches[i].runs@[0] < touches[i].runs@[last]);
            assert(walk.runs@[touch.runs@[0] as int].start.value() <= walk.runs@[touch.runs@[last] as int].start.value());
        }
    }
}

/// A mark of the crossing is one of the list.
spec fn is_marked(walks: Seq<RayWalk>, touches: Seq<Touch>, marks: Seq<F64>, x: int, r: int, i: int) -> bool {
    let walk = walks[touches[x].sample as int];
    meets(walk.runs@[touches[x].runs@[r] as int], walk.spans@[i]) ==> marks.contains(walk.spans@[i].start)
        && marks.contains(walk.spans@[i].end)
}

proof fn lemma_marks(walks: Seq<RayWalk>, touches: Seq<Touch>, n: int)
    requires
        0 <= n <= touches.len(),
        are_sound(walks, touches),
    ensures
        are_reached(profile::marks_of(walks, touches, n)),
        forall|x: int, r: int, i: int|
            0 <= x < n && 0 <= r < touches[x].runs@.len() && 0 <= i < walks[touches[x].sample as int].spans@.len()
                ==> #[trigger] is_marked(walks, touches, profile::marks_of(walks, touches, n), x, r, i),
    decreases n,
{
    if n > 0 {
        lemma_marks(walks, touches, n - 1);
        let touch = touches[n - 1];
        let walk = walks[touch.sample as int];
        let rest = profile::marks_of(walks, touches, n - 1);
        let own = profile::sample_marks(walk, touch.runs@, touch.runs@.len() as int);
        let all = profile::marks_of(walks, touches, n);
        lemma_sample_marks(walk, touch.runs@, touch.runs@.len() as int);
        assert(all == rest + own);
        assert forall|i: int| 0 <= i < all.len() implies is_reached(#[trigger] all[i]) by {
            if i < rest.len() {
                assert(all[i] == rest[i]);
            } else {
                assert(all[i] == own[i - rest.len()]);
            }
        }
        assert forall|x: int, r: int, i: int|
            0 <= x < n && 0 <= r < touches[x].runs@.len() && 0 <= i < walks[touches[x].sample as int].spans@.len() implies #[trigger] is_marked(
            walks,
            touches,
            all,
            x,
            r,
            i,
        ) by {
            let there = walks[touches[x].sample as int];
            if meets(there.runs@[touches[x].runs@[r] as int], there.spans@[i]) {
                if x < n - 1 {
                    assert(is_marked(walks, touches, rest, x, r, i));
                    lemma_kept(rest, all, there.spans@[i].start);
                    lemma_kept(rest, all, there.spans@[i].end);
                } else {
                    lemma_later(rest, own, there.spans@[i].start);
                    lemma_later(rest, own, there.spans@[i].end);
                }
            }
        }
    }
}

/// The distinct marks of an ordered list rise, and have its marks' values.
proof fn lemma_distinct(ts: Seq<F64>, n: int)
    requires
        profile::in_rank_order(ts),
        are_reached(ts),
        0 <= n <= ts.len(),
    ensures
        fragment::rises(profile::distinct(ts, n)),
        are_reached(profile::distinct(ts, n)),
        forall|i: int| 0 <= i < n ==> has_value(profile::distinct(ts, n), (#[trigger] ts[i]).value()),
        n > 0 ==> profile::distinct(ts, n).len() > 0 && profile::distinct(ts, n).last().value() == ts[n - 1].value(),
    decreases n,
{
    if n > 0 {
        lemma_distinct(ts, n - 1);
        let rest = profile::distinct(ts, n - 1);
        let all = profile::distinct(ts, n);
        let here = ts[n - 1];
        if n > 1 {
            assert(ts[n - 2].rank() <= ts[n - 1].rank());
            ts[n - 2].lemma_rank(here);
        }
        assert(is_reached(here));
        assert forall|i: int| 0 <= i < n implies has_value(all, (#[trigger] ts[i]).value()) by {
            if i < n - 1 {
                let v = ts[i].value();
                assert(has_value(rest, v));
                let k = choose|k: int| 0 <= k < rest.len() && (#[trigger] rest[k]).value() == v;
                assert(all[k].value() == v);
            } else {
                assert(all[all.len() - 1].value() == here.value());
            }
        }
        assert forall|k: int, l: int| 0 <= k < l < all.len() implies (#[trigger] all[k]).value() < (#[trigger] all[l]).value() by {
            if l < rest.len() {
                assert(rest[k].value() < rest[l].value());
            } else {
                assert(all[l] == here);
                assert(all[k] == rest[k]);
                if k < rest.len() - 1 {
                    assert(rest[k].value() < rest[rest.len() - 1].value());
                }
            }
        }
    }
}

/// The list holds a number of this value.
spec fn has_value(ts: Seq<F64>, v: int) -> bool {
    exists|k: int| 0 <= k < ts.len() && (#[trigger] ts[k]).value() == v
}

/// Trimming keeps what lies inside, in order.
proof fn lemma_trimmed(ts: Seq<F64>, start: F64, end: F64, n: int)
    requires
        fragment::rises(ts),
        are_reached(ts),
        0 <= n <= ts.len(),
    ensures
        ({
            let kept = profile::trimmed(ts, start, end, n);
            &&& fragment::rises(kept)
            &&& are_reached(kept)
            &&& forall|k: int|
                0 <= k < kept.len() ==> start.at_most(#[trigger] kept[k]) && kept[k].at_most(end) && (n < ts.len()
                    ==> kept[k].value() < ts[n].value())
            &&& forall|i: int|
                0 <= i < n && start.at_most(#[trigger] ts[i]) && ts[i].at_most(end) ==> has_value(kept, ts[i].value())
        }),
    decreases n,
{
    if n > 0 {
        lemma_trimmed(ts, start, end, n - 1);
        let rest = profile::trimmed(ts, start, end, n - 1);
        let kept = profile::trimmed(ts, start, end, n);
        if n < ts.len() {
            assert(ts[n - 1].value() < ts[n].value());
        }
        assert forall|i: int| 0 <= i < n && start.at_most(#[trigger] ts[i]) && ts[i].at_most(end) implies has_value(
            kept,
            ts[i].value(),
        ) by {
            let v = ts[i].value();
            if i < n - 1 {
                assert(has_value(rest, v));
                let k = choose|k: int| 0 <= k < rest.len() && (#[trigger] rest[k]).value() == v;
                assert(kept[k].value() == v);
            } else {
                assert(kept[rest.len() as int].value() == v);
            }
        }
        assert(is_reached(ts[n - 1]));
    }
}

/// The breaks rise from where the crossing starts to where it ends, and hold every mark
/// between.
proof fn lemma_breaks(ts: Seq<F64>, marks: Seq<F64>, start: F64, end: F64)
    requires
        profile::are_breaks(ts, marks, start, end),
        are_reached(marks),
        is_reached(start),
        is_reached(end),
        start.value() <= end.value(),
    ensures
        fragment::rises(ts),
        are_reached(ts),
        ts.len() > 0,
        ts[0].value() == start.value(),
        ts.last().value() == end.value(),
        forall|t: F64|
            #[trigger] marks.contains(t) && start.value() <= t.value() <= end.value() ==> has_value(ts, t.value()),
{
    broadcast use vstd::seq_lib::group_to_multiset_ensures;

    let list = seq![start, end] + marks;
    let ordered = choose|ordered: Seq<F64>|
        {
            &&& #[trigger] profile::in_rank_order(ordered)
            &&& ordered.to_multiset() == list.to_multiset()
            &&& ts == profile::trimmed(
                profile::distinct(ordered, ordered.len() as int),
                start,
                end,
                profile::distinct(ordered, ordered.len() as int).len() as int,
            )
        };
    let n = ordered.len() as int;
    assert forall|i: int| 0 <= i < ordered.len() implies is_reached(#[trigger] ordered[i]) by {
        let t = ordered[i];
        assert(ordered.contains(t));
        assert(ordered.to_multiset().count(t) > 0);
        assert(list.contains(t));
        let k = choose|k: int| 0 <= k < list.len() && list[k] == t;
        if k >= 2 {
            assert(marks[k - 2] == t);
        }
    }
    lemma_distinct(ordered, n);
    let told = profile::distinct(ordered, n);
    lemma_trimmed(told, start, end, told.len() as int);
    assert forall|t: F64| #[trigger] list.contains(t) && start.value() <= t.value() <= end.value() implies has_value(
        ts,
        t.value(),
    ) by {
        assert(list.to_multiset().count(t) > 0);
        assert(ordered.contains(t));
        let i = choose|i: int| 0 <= i < ordered.len() && ordered[i] == t;
        assert(has_value(told, ordered[i].value()));
        let k = choose|k: int| 0 <= k < told.len() && (#[trigger] told[k]).value() == t.value();
        assert(is_reached(told[k]));
    }
    assert(list[0] == start && list[1] == end);
    assert(list.contains(start) && list.contains(end));
    let first = choose|k: int| 0 <= k < ts.len() && (#[trigger] ts[k]).value() == start.value();
    let last = choose|k: int| 0 <= k < ts.len() && (#[trigger] ts[k]).value() == end.value();
    assert(start.at_most(ts[0]));
    if first > 0 {
        assert(ts[0].value() < ts[first].value());
    }
    assert(ts[ts.len() - 1].at_most(end));
    if last < ts.len() - 1 {
        assert(ts[last].value() < ts[ts.len() - 1].value());
    }
    assert forall|t: F64| #[trigger] marks.contains(t) && start.value() <= t.value() <= end.value() implies has_value(
        ts,
        t.value(),
    ) by {
        lemma_later(seq![start, end], marks, t);
        assert(list.contains(t));
    }
}

/// A crossing starts at a finite distance, and does not end before.
proof fn lemma_extent(walks: Seq<RayWalk>, touches: Seq<Touch>, n: int)
    requires
        are_sound(walks, touches),
        0 < n <= touches.len(),
    ensures
        is_reached(extent::start_of(walks, touches, n)),
        is_reached(extent::end_of(walks, touches, n)),
        extent::start_of(walks, touches, n).value() <= extent::end_of(walks, touches, n).value(),
    decreases n,
{
    let touch = touches[n - 1];
    let walk = walks[touch.sample as int];
    assert(touches[n - 1].runs@[0] < walk.runs@.len());
    assert(touches[n - 1].runs@[touch.runs@.len() - 1] < walk.runs@.len());
    let (first, last) = (extent::first_run(walks, touch), extent::last_run(walks, touch));
    assert(is_reached(first.start) && is_reached(last.end));
    if n > 1 {
        lemma_extent(walks, touches, n - 1);
    } else {
        assert(extent::start_of(walks, touches, 0) == (F64 { bits: 0x7ff0_0000_0000_0000 }));
        assert(extent::end_of(walks, touches, 0) == (F64 { bits: 0xfff0_0000_0000_0000 }));
        first.start.lemma_within_bounds();
        last.end.lemma_within_bounds();
    }
}

proof fn lemma_slope(walks: Seq<RayWalk>, touches: Seq<Touch>, mid: F64, n: int)
    requires
        are_sound(walks, touches),
        0 <= n <= touches.len(),
    ensures
        !profile::slope_at(walks, touches, mid, n).is_nan(),
        0 <= profile::slope_at(walks, touches, mid, n).value(),
    decreases n,
{
    F64::zero().lemma_nonnegative();
    if n > 0 {
        lemma_slope(walks, touches, mid, n - 1);
        let walk = walks[touches[n - 1].sample as int];
        if let Some(span) = profile::span_at(walk.spans@, mid, 0) {
            lemma_span_listed(walk.spans@, mid, 0);
            span.factor.lemma_doubled();
            span.factor.doubled().lemma_nonnegative();
            profile::slope_at(walks, touches, mid, n - 1).lemma_sum_more(span.factor.doubled());
        }
    }
}

/// A span found is one of the list.
pub(crate) proof fn lemma_span_listed(charted: Seq<Span>, mid: F64, i: int)
    requires
        0 <= i,
        forall|n: int|
            0 <= n < charted.len() ==> (#[trigger] charted[n]).factor.finite() && !charted[n].factor.negative(),
    ensures
        profile::span_at(charted, mid, i) matches Some(span) ==> span.factor.finite() && !span.factor.negative(),
    decreases charted.len() - i,
{
    if i < charted.len() && !(charted[i].start.at_most(mid) && mid.below(charted[i].end)) {
        lemma_span_listed(charted, mid, i + 1);
    }
}

proof fn lemma_cumulative(walks: Seq<RayWalk>, touches: Seq<Touch>, ts: Seq<F64>, k: nat, n: int)
    requires
        are_sound(walks, touches),
        fragment::rises(ts),
        are_reached(ts),
        0 < k <= u64::MAX,
        0 <= n < ts.len(),
    ensures
        !profile::cumulative_at(walks, touches, ts, k, n).is_nan(),
        0 <= profile::cumulative_at(walks, touches, ts, k, n).value(),
        n > 0 ==> profile::cumulative_at(walks, touches, ts, k, n - 1).value() <= profile::cumulative_at(
            walks,
            touches,
            ts,
            k,
            n,
        ).value(),
    decreases n,
{
    F64::zero().lemma_nonnegative();
    if n > 0 {
        lemma_cumulative(walks, touches, ts, k, n - 1);
        let (a, b) = (ts[n - 1], ts[n]);
        let slope = profile::slope_at(walks, touches, profile::midpoint(a, b), touches.len() as int);
        lemma_slope(walks, touches, profile::midpoint(a, b), touches.len() as int);
        assert(is_reached(a) && is_reached(b) && a.value() < b.value());
        b.lemma_gap(a);
        b.lemma_difference_sign(a);
        b.difference(a).lemma_product_number(slope);
        F64::lemma_count(k);
        b.difference(a).product(slope).lemma_quotient_number(F64::whole(k));
        profile::cumulative_at(walks, touches, ts, k, n - 1).lemma_sum_more(
            b.difference(a).product(slope).quotient(F64::whole(k)),
        );
    }
}

proof fn lemma_never_falls(walks: Seq<RayWalk>, touches: Seq<Touch>, ts: Seq<F64>, k: nat, m: int, n: int)
    requires
        are_sound(walks, touches),
        fragment::rises(ts),
        are_reached(ts),
        0 < k <= u64::MAX,
        0 <= m <= n < ts.len(),
    ensures
        profile::cumulative_at(walks, touches, ts, k, m).value() <= profile::cumulative_at(walks, touches, ts, k, n).value(),
    decreases n,
{
    if m < n {
        lemma_cumulative(walks, touches, ts, k, n);
        lemma_never_falls(walks, touches, ts, k, m, n - 1);
    }
}

/// The samples of one of a disc's crossings.
pub(crate) proof fn lemma_group(
    walk: DiscWalk,
    corridor: DiscCorridor,
    laws: WalkLaws,
    rows: Seq<(Entity, F32)>,
    factors: Map<Entity, F32>,
    groups: Seq<Seq<Touch>>,
    e: int,
)
    requires
        disc_walk::is_disc_walk(walk, corridor, laws, rows, factors),
        table::ordered(rows),
        crossings::shares_out(walk, corridor, groups),
        0 <= e < walk.events@.len(),
    ensures
        ({
            let touches = groups[e];
            let event = walk.events@[e];
            &&& are_laid(walk.walks@, touches, corridor.length.doubled().value())
            &&& touches.len() > 0
            &&& event::is_event(event, corridor, walk.walks@, touches)
            &&& is_reached(event.start)
            &&& is_reached(event.end)
            &&& event.start.value() <= event.end.value()
        }),
{
    let touches = groups[e];
    let walks = walk.walks@;
    let to = corridor.length.doubled().value();
    assert(touches.len() > 0);
    assert forall|i: int| 0 <= i < touches.len() implies (#[trigger] touches[i]).sample < walks.len() && touches[i].runs@.len()
        > 0 && is_laid(walks[touches[i].sample as int], to) by {
        let s = touches[i].sample as int;
        assert(extent::touches_fit(groups[e], corridor, walks));
        assert(ray::is_walk(walks[s], disc_walk::sample_corridor(corridor, s), laws, rows, factors));
        assert(disc_walk::walkable(corridor, laws, factors, s));
        lemma_laid(walks[s], disc_walk::sample_corridor(corridor, s), laws, rows, factors);
    }
    lemma_sound(walks, touches, to);
    lemma_extent(walks, touches, touches.len() as int);
}

/// The event's profile rises strictly from where the event starts to where it ends; its cost starts
/// from nothing, never falls, and ends with what the event costs.
pub open spec fn is_spanned(event: DiscEvent) -> bool {
    &&& budget::is_rising(event.profile)
    &&& event.profile.ts@[0].equals(event.start)
    &&& event.profile.ts@.last().equals(event.end)
    &&& event.cost == event.profile.cumulative@.last().halved()
}

/// The profile of any event that is built from sound walks spans the event, whatever runs of theirs
/// it is built from.
pub proof fn law_a_profile_spans_its_event(
    event: DiscEvent,
    corridor: DiscCorridor,
    walks: Seq<RayWalk>,
    touches: Seq<Touch>,
)
    requires
        extent::touches_fit(touches, corridor, walks),
        event::is_event(event, corridor, walks, touches),
        are_sound(walks, touches),
    ensures
        is_spanned(event),
{
    lemma_touched(event, corridor, walks, touches);
    let (ts, cost) = (event.profile.ts@, event.profile.cumulative@);
    let k = corridor.samples@.len();
    assert(corridor.samples.len() == k);
    assert(touches[0].sample < walks.len());
    lemma_extent(walks, touches, touches.len() as int);
    lemma_marks(walks, touches, touches.len() as int);
    lemma_breaks(ts, profile::marks_of(walks, touches, touches.len() as int), event.start, event.end);
    assert forall|i: int, j: int| 0 <= i < j < ts.len() implies (#[trigger] ts[i]).below(#[trigger] ts[j]) by {
        assert(is_reached(ts[i]) && is_reached(ts[j]));
    }
    assert forall|i: int| 0 <= i < ts.len() implies (#[trigger] ts[i]).finite() && 0 <= ts[i].value() by {
        assert(is_reached(ts[i]));
    }
    assert forall|i: int| 0 <= i < cost.len() implies !(#[trigger] cost[i]).is_nan() by {
        lemma_cumulative(walks, touches, ts, k, i);
    }
    assert forall|i: int, j: int| 0 <= i < j < cost.len() implies (#[trigger] cost[i]).value() <= (#[trigger] cost[j]).value() by {
        lemma_never_falls(walks, touches, ts, k, i, j);
    }
    assert(cost[0] == profile::cumulative_at(walks, touches, ts, k, 0));
    assert(is_reached(ts[ts.len() - 1]));
}

/// An event is built from something: of nothing the entry normals cancel.
proof fn lemma_touched(event: DiscEvent, corridor: DiscCorridor, walks: Seq<RayWalk>, touches: Seq<Touch>)
    requires
        event::is_event(event, corridor, walks, touches),
    ensures
        touches.len() > 0,
{
    if touches.len() == 0 {
        let zero = Vec3::zero();
        assert(extent::entry_sum(walks, touches, 0) == zero);
        zero.lemma_no_direction();
    }
}

/// The profile of a crossing rises strictly from the crossing's start to its end; its
/// cost starts from nothing, never falls, and ends with what the crossing costs.
pub proof fn law_a_profile_spans_its_crossing(
    walk: DiscWalk,
    corridor: DiscCorridor,
    laws: WalkLaws,
    rows: Seq<(Entity, F32)>,
    factors: Map<Entity, F32>,
    e: int,
)
    requires
        disc_walk::is_disc_walk(walk, corridor, laws, rows, factors),
        table::ordered(rows),
        0 <= e < walk.events@.len(),
    ensures
        is_spanned(walk.events@[e]),
{
    crossings::law_every_run_crosses_once(walk, corridor, laws, rows, factors);
    let groups = choose|groups: Seq<Seq<Touch>>| #[trigger] crossings::shares_out(walk, corridor, groups);
    lemma_group(walk, corridor, laws, rows, factors, groups, e);
    lemma_sound(walk.walks@, groups[e], corridor.length.doubled().value());
    assert(extent::touches_fit(groups[e], corridor, walk.walks@));
    law_a_profile_spans_its_event(walk.events@[e], corridor, walk.walks@, groups[e]);
}

/// A span holds each distance of a run.
proof fn lemma_held(charted: Seq<Span>, to: int, a: int, b: int, t: F64) -> (p: int)
    requires
        fragment::is_paved(charted, to),
        0 <= a < b <= charted.len(),
        charted[a].start.at_most(t),
        t.below(charted[b - 1].end),
    ensures
        a <= p < b,
        charted[p].start.at_most(t),
        t.below(charted[p].end),
    decreases b - a,
{
    laws::lemma_forward(charted, 0, to, a);
    if t.value() < charted[a].end.value() {
        a
    } else {
        assert(charted[a].end == charted[a + 1].start);
        lemma_held(charted, to, a + 1, b, t)
    }
}

/// No span of the sample's runs starts or ends after `t` and up to `u`.
spec fn is_plain(walk: RayWalk, runs: Seq<usize>, t: F64, u: F64) -> bool {
    forall|r: int, i: int|
        0 <= r < runs.len() && 0 <= i < walk.spans@.len() && #[trigger] meets(
            walk.runs@[runs[r] as int],
            walk.spans@[i],
        ) ==> !(t.value() < walk.spans@[i].start.value() <= u.value()) && !(t.value() < walk.spans@[i].end.value()
            <= u.value())
}

proof fn lemma_plain(walk: RayWalk, to: int, runs: Seq<usize>, t: F64, u: F64)
    requires
        is_laid(walk, to),
        forall|r: int| 0 <= r < runs.len() ==> (#[trigger] runs[r]) < walk.runs@.len(),
        t.at_most(u),
        is_plain(walk, runs, t, u),
    ensures
        profile::in_runs(walk, runs, t) == profile::in_runs(walk, runs, u),
        profile::in_runs(walk, runs, t) ==> profile::span_at(walk.spans@, t, 0) == profile::span_at(walk.spans@, u, 0),
{
    let charted = walk.spans@;
    if profile::in_runs(walk, runs, t) {
        let r = choose|r: int|
            0 <= r < runs.len() && walk.runs@[(#[trigger] runs[r]) as int].start.at_most(t) && t.below(
                walk.runs@[runs[r] as int].end,
            );
        let run = walk.runs@[runs[r] as int];
        assert(has_place(walk, runs[r] as int));
        lemma_run_ends(walk, to, runs[r] as int);
        let (a, b) = choose|a: int, b: int| lies(walk, runs[r] as int, a, b);
        laws::lemma_forward(charted, 0, to, b - 1);
        assert(meets(run, charted[b - 1]));
        assert(run.start.at_most(u) && u.below(run.end));
        assert(profile::in_runs(walk, runs, u));
        let p = lemma_held(charted, to, a, b, t);
        assert(meets(run, charted[p]));
        assert(u.below(charted[p].end));
        fragment::lemma_span_at(charted, to, t, p, 0);
        fragment::lemma_span_at(charted, to, u, p, 0);
    }
    if profile::in_runs(walk, runs, u) {
        let r = choose|r: int|
            0 <= r < runs.len() && walk.runs@[(#[trigger] runs[r]) as int].start.at_most(u) && u.below(
                walk.runs@[runs[r] as int].end,
            );
        let run = walk.runs@[runs[r] as int];
        assert(has_place(walk, runs[r] as int));
        lemma_run_ends(walk, to, runs[r] as int);
        let (a, b) = choose|a: int, b: int| lies(walk, runs[r] as int, a, b);
        laws::lemma_forward(charted, 0, to, a);
        assert(meets(run, charted[a]));
        assert(run.start.at_most(t) && t.below(run.end));
        assert(profile::in_runs(walk, runs, t));
    }
}

proof fn lemma_steady(walks: Seq<RayWalk>, touches: Seq<Touch>, to: int, t: F64, u: F64, n: int)
    requires
        are_laid(walks, touches, to),
        t.at_most(u),
        forall|x: int|
            0 <= x < touches.len() ==> is_plain(walks[(#[trigger] touches[x]).sample as int], touches[x].runs@, t, u),
        0 <= n <= touches.len(),
    ensures
        profile::slope_at(walks, touches, t, n) == profile::slope_at(walks, touches, u, n),
        sharing::crossing_at(walks, touches, t, n) == sharing::crossing_at(walks, touches, u, n),
    decreases n,
{
    if n > 0 {
        lemma_steady(walks, touches, to, t, u, n - 1);
        let touch = touches[n - 1];
        assert forall|r: int| 0 <= r < touch.runs@.len() implies (#[trigger] touch.runs@[r])
            < walks[touch.sample as int].runs@.len() by {
            assert(touches[n - 1].runs@[r] < walks[touch.sample as int].runs@.len());
        }
        lemma_plain(walks[touch.sample as int], to, touch.runs@, t, u);
    }
}

/// Between two neighbouring breaks no mark lies.
pub(crate) proof fn lemma_between(walks: Seq<RayWalk>, touches: Seq<Touch>, to: int, ts: Seq<F64>, start: F64, end: F64, i: int, t: F64, u: F64)
    requires
        are_laid(walks, touches, to),
        is_reached(start),
        is_reached(end),
        start.value() <= end.value(),
        profile::are_breaks(ts, profile::marks_of(walks, touches, touches.len() as int), start, end),
        0 < i < ts.len(),
        ts[i - 1].at_most(t),
        t.at_most(u),
        u.below(ts[i]),
    ensures
        profile::slope_at(walks, touches, t, touches.len() as int) == profile::slope_at(
            walks,
            touches,
            u,
            touches.len() as int,
        ),
        sharing::crossing_at(walks, touches, t, touches.len() as int) == sharing::crossing_at(
            walks,
            touches,
            u,
            touches.len() as int,
        ),
{
    let marks = profile::marks_of(walks, touches, touches.len() as int);
    lemma_sound(walks, touches, to);
    lemma_marks(walks, touches, touches.len() as int);
    lemma_breaks(ts, marks, start, end);
    assert forall|m: F64| #[trigger] marks.contains(m) implies !(t.value() < m.value() <= u.value()) by {
        if t.value() < m.value() <= u.value() {
            if i > 1 {
                assert(ts[0].value() < ts[i - 1].value());
            }
            if i < ts.len() - 1 {
                assert(ts[i].value() < ts[ts.len() - 1].value());
            }
            assert(has_value(ts, m.value()));
            let k = choose|k: int| 0 <= k < ts.len() && (#[trigger] ts[k]).value() == m.value();
            if k < i - 1 {
                assert(ts[k].value() < ts[i - 1].value());
            } else if k > i {
                assert(ts[i].value() < ts[k].value());
            }
        }
    }
    assert forall|x: int| 0 <= x < touches.len() implies is_plain(
        walks[(#[trigger] touches[x]).sample as int],
        touches[x].runs@,
        t,
        u,
    ) by {
        let walk = walks[touches[x].sample as int];
        let runs = touches[x].runs@;
        assert forall|r: int, k: int|
            0 <= r < runs.len() && 0 <= k < walk.spans@.len() && #[trigger] meets(
                walk.runs@[runs[r] as int],
                walk.spans@[k],
            ) implies !(t.value() < walk.spans@[k].start.value() <= u.value()) && !(t.value()
            < walk.spans@[k].end.value() <= u.value()) by {
            assert(is_marked(walks, touches, marks, x, r, k));
        }
    }
    lemma_steady(walks, touches, to, t, u, touches.len() as int);
}

/// Each run of a crossing lies between where it starts and where it ends.
proof fn lemma_inside(walks: Seq<RayWalk>, touches: Seq<Touch>, to: int, n: int, x: int, m: int)
    requires
        are_laid(walks, touches, to),
        0 <= x < n <= touches.len(),
        0 <= m < touches[x].runs@.len(),
    ensures
        ({
            let run = walks[touches[x].sample as int].runs@[touches[x].runs@[m] as int];
            &&& extent::start_of(walks, touches, n).value() <= run.start.value()
            &&& run.end.value() <= extent::end_of(walks, touches, n).value()
        }),
    decreases n,
{
    lemma_sound(walks, touches, to);
    lemma_extent(walks, touches, n);
    let touch = touches[n - 1];
    let walk = walks[touch.sample as int];
    let last = touch.runs@.len() - 1;
    assert(touches[n - 1].runs@[0] < walk.runs@.len());
    assert(touches[n - 1].runs@[last] < walk.runs@.len());
    assert(is_reached(extent::first_run(walks, touch).start) && is_reached(extent::last_run(walks, touch).end));
    if n > 1 {
        lemma_extent(walks, touches, n - 1);
    } else {
        assert(extent::start_of(walks, touches, 0) == (F64 { bits: 0x7ff0_0000_0000_0000 }));
        assert(extent::end_of(walks, touches, 0) == (F64 { bits: 0xfff0_0000_0000_0000 }));
        extent::first_run(walks, touch).start.lemma_within_bounds();
        extent::last_run(walks, touch).end.lemma_within_bounds();
    }
    if x < n - 1 {
        lemma_inside(walks, touches, to, n - 1, x, m);
    } else {
        assert(touches[x].runs@[m] < walk.runs@.len());
        if m > 0 {
            assert(touches[x].runs@[0] < touches[x].runs@[m]);
            assert(walk.runs@[touch.runs@[0] as int].start.value() <= walk.runs@[touch.runs@[m] as int].start.value());
        }
        if m < last {
            assert(touches[x].runs@[m] < touches[x].runs@[last]);
            assert(walk.runs@[touch.runs@[m] as int].end.value() <= walk.runs@[touch.runs@[last] as int].start.value());
        }
    }
}

/// A crossing ends inside the corridor.
pub(crate) proof fn lemma_ends_within(walks: Seq<RayWalk>, touches: Seq<Touch>, to: int, n: int)
    requires
        are_laid(walks, touches, to),
        0 < n <= touches.len(),
    ensures
        extent::end_of(walks, touches, n).value() <= to,
    decreases n,
{
    lemma_sound(walks, touches, to);
    lemma_extent(walks, touches, n);
    let touch = touches[n - 1];
    let walk = walks[touch.sample as int];
    let r = touch.runs@.last() as int;
    assert(touches[n - 1].runs@[touch.runs@.len() - 1] < walk.runs@.len());
    assert(has_place(walk, r));
    let (a, b) = choose|a: int, b: int| lies(walk, r, a, b);
    laws::lemma_forward(walk.spans@, 0, to, b - 1);
    if n > 1 {
        lemma_ends_within(walks, touches, to, n - 1);
        lemma_extent(walks, touches, n - 1);
    } else {
        assert(extent::end_of(walks, touches, 0) == (F64 { bits: 0xfff0_0000_0000_0000 }));
        extent::last_run(walks, touch).end.lemma_within_bounds();
    }
}

/// Before a crossing starts and from its end on it holds nothing.
pub(crate) proof fn lemma_beside(walks: Seq<RayWalk>, touches: Seq<Touch>, to: int, t: F64, n: int)
    requires
        are_laid(walks, touches, to),
        0 <= n <= touches.len(),
        t.finite(),
        t.value() < extent::start_of(walks, touches, touches.len() as int).value() || extent::end_of(
            walks,
            touches,
            touches.len() as int,
        ).value() <= t.value(),
    ensures
        sharing::crossing_at(walks, touches, t, n) == 0,
    decreases n,
{
    if n > 0 {
        lemma_beside(walks, touches, to, t, n - 1);
        let touch = touches[n - 1];
        let walk = walks[touch.sample as int];
        if profile::in_runs(walk, touch.runs@, t) {
            let m = choose|m: int|
                0 <= m < touch.runs@.len() && walk.runs@[(#[trigger] touch.runs@[m]) as int].start.at_most(t) && t.below(
                    walk.runs@[touch.runs@[m] as int].end,
                );
            lemma_inside(walks, touches, to, touches.len() as int, n - 1, m);
        }
    }
}

/// The profile reads the samples' field: between two neighbouring breaks the factors that
/// the crossing's samples meet add up to the same at every distance, so what is read in
/// the middle holds of the whole stretch.
pub proof fn law_a_stretch_is_even(
    walk: DiscWalk,
    corridor: DiscCorridor,
    laws: WalkLaws,
    rows: Seq<(Entity, F32)>,
    factors: Map<Entity, F32>,
    groups: Seq<Seq<Touch>>,
    e: int,
    i: int,
    t: F64,
    u: F64,
)
    requires
        disc_walk::is_disc_walk(walk, corridor, laws, rows, factors),
        table::ordered(rows),
        crossings::shares_out(walk, corridor, groups),
        0 <= e < walk.events@.len(),
        0 < i < walk.events@[e].profile.ts@.len(),
        walk.events@[e].profile.ts@[i - 1].at_most(t),
        t.below(walk.events@[e].profile.ts@[i]),
        walk.events@[e].profile.ts@[i - 1].at_most(u),
        u.below(walk.events@[e].profile.ts@[i]),
    ensures
        profile::slope_at(walk.walks@, groups[e], t, groups[e].len() as int) == profile::slope_at(
            walk.walks@,
            groups[e],
            u,
            groups[e].len() as int,
        ),
{
    lemma_group(walk, corridor, laws, rows, factors, groups, e);
    let event = walk.events@[e];
    let to = corridor.length.doubled().value();
    let ts = event.profile.ts@;
    if t.value() <= u.value() {
        lemma_between(walk.walks@, groups[e], to, ts, event.start, event.end, i, t, u);
    } else {
        lemma_between(walk.walks@, groups[e], to, ts, event.start, event.end, i, u, t);
    }
}

} // verus!
