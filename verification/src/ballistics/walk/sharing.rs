//! The crossings of a disc share out its field: at every distance they hold together exactly
//! what its samples meet.

use crate::ballistics::walk::crossings;
use crate::ballistics::walk::disc::{DiscCorridor, DiscWalk};
use crate::ballistics::walk::disc_walk;
use crate::ballistics::walk::extent;
use crate::ballistics::walk::extent::Touch;
use crate::ballistics::walk::fragment;
use crate::ballistics::walk::profile;
use crate::ballistics::walk::ray;
use crate::ballistics::walk::ray::RayWalk;
use crate::ballistics::walk::table;
use crate::ballistics::walk::vocabulary::{Entity, RayCorridor, WalkLaws};
use crate::float::{F32, F64};
use vstd::prelude::*;

verus! {

/// The exact factor that a sample meets at a distance; none past its spans.
pub open spec fn met_at(walk: RayWalk, t: F64) -> int {
    match profile::span_at(walk.spans@, t, 0) {
        Some(span) => span.factor.value(),
        None => 0,
    }
}

/// What touch `i` of a crossing meets at a distance inside its runs.
pub open spec fn touch_at(walks: Seq<RayWalk>, touches: Seq<Touch>, t: F64, i: int) -> int {
    let walk = walks[touches[i].sample as int];
    if profile::in_runs(walk, touches[i].runs@, t) {
        met_at(walk, t)
    } else {
        0
    }
}

/// The exact sum of what the first `n` touches of a crossing meet: what the profile's slope
/// adds up rounded.
pub open spec fn crossing_at(walks: Seq<RayWalk>, touches: Seq<Touch>, t: F64, n: int) -> int
    decreases n,
{
    if n <= 0 {
        0
    } else {
        crossing_at(walks, touches, t, n - 1) + touch_at(walks, touches, t, n - 1)
    }
}

/// The exact sum of what the first `n` crossings hold at a distance.
pub open spec fn crossings_at(walks: Seq<RayWalk>, groups: Seq<Seq<Touch>>, t: F64, n: int) -> int
    decreases n,
{
    if n <= 0 {
        0
    } else {
        crossings_at(walks, groups, t, n - 1) + crossing_at(walks, groups[n - 1], t, groups[n - 1].len() as int)
    }
}

/// The exact sum of what the first `n` samples meet at a distance.
pub open spec fn samples_at(walks: Seq<RayWalk>, t: F64, n: int) -> int
    decreases n,
{
    if n <= 0 {
        0
    } else {
        samples_at(walks, t, n - 1) + met_at(walks[n - 1], t)
    }
}

/// The sum of the first `n` values.
pub(crate) open spec fn total(f: spec_fn(int) -> int, n: int) -> int
    decreases n,
{
    if n <= 0 {
        0
    } else {
        total(f, n - 1) + f(n - 1)
    }
}

pub(crate) proof fn lemma_total_same(f: spec_fn(int) -> int, g: spec_fn(int) -> int, n: int)
    requires
        forall|i: int| 0 <= i < n ==> #[trigger] f(i) == g(i),
    ensures
        total(f, n) == total(g, n),
    decreases n,
{
    if n > 0 {
        lemma_total_same(f, g, n - 1);
        assert(f(n - 1) == g(n - 1));
    }
}

pub(crate) proof fn lemma_total_of_sums(f: spec_fn(int) -> int, g: spec_fn(int) -> int, h: spec_fn(int) -> int, n: int)
    requires
        forall|i: int| 0 <= i < n ==> #[trigger] h(i) == f(i) + g(i),
    ensures
        total(h, n) == total(f, n) + total(g, n),
    decreases n,
{
    if n > 0 {
        lemma_total_of_sums(f, g, h, n - 1);
        assert(h(n - 1) == f(n - 1) + g(n - 1));
    }
}

pub(crate) proof fn lemma_total_of_nothing(f: spec_fn(int) -> int, n: int)
    requires
        forall|i: int| 0 <= i < n ==> #[trigger] f(i) == 0,
    ensures
        total(f, n) == 0,
    decreases n,
{
    if n > 0 {
        lemma_total_of_nothing(f, n - 1);
        assert(f(n - 1) == 0);
    }
}

/// A sum with one value that is not nothing.
proof fn lemma_total_of_one(f: spec_fn(int) -> int, n: int, k: int)
    requires
        0 <= k < n,
        forall|i: int| 0 <= i < n && i != k ==> #[trigger] f(i) == 0,
    ensures
        total(f, n) == f(k),
    decreases n,
{
    if k == n - 1 {
        lemma_total_of_nothing(f, n - 1);
    } else {
        lemma_total_of_one(f, n - 1, k);
        assert(f(n - 1) == 0);
    }
}

/// One of the first `n` touches is of the sample, inside one of its runs.
spec fn holds(walks: Seq<RayWalk>, touches: Seq<Touch>, t: F64, n: int, s: int) -> bool {
    exists|i: int|
        0 <= i < n && (#[trigger] touches[i]).sample == s && profile::in_runs(walks[s], touches[i].runs@, t)
}

/// The sample's part in what the first `n` touches hold.
spec fn part(walks: Seq<RayWalk>, touches: Seq<Touch>, t: F64, n: int) -> spec_fn(int) -> int {
    |s: int|
        if holds(walks, touches, t, n, s) {
            met_at(walks[s], t)
        } else {
            0
        }
}

/// What a crossing holds is what its samples have part in.
proof fn lemma_crossing_by_sample(walks: Seq<RayWalk>, touches: Seq<Touch>, t: F64, n: int)
    requires
        0 <= n <= touches.len(),
        crossings::samples_rise(touches),
        forall|i: int| 0 <= i < touches.len() ==> (#[trigger] touches[i]).sample < walks.len(),
    ensures
        crossing_at(walks, touches, t, n) == total(part(walks, touches, t, n), walks.len() as int),
    decreases n,
{
    let k = walks.len() as int;
    let all = part(walks, touches, t, n);
    if n > 0 {
        lemma_crossing_by_sample(walks, touches, t, n - 1);
        let rest = part(walks, touches, t, n - 1);
        let here = touches[n - 1].sample as int;
        assert(touches[n - 1].sample < walks.len());
        let own = |s: int|
            if s == here {
                touch_at(walks, touches, t, n - 1)
            } else {
                0
            };
        assert forall|s: int| 0 <= s < k implies #[trigger] all(s) == rest(s) + own(s) by {
            assert(holds(walks, touches, t, n, s) <==> holds(walks, touches, t, n - 1, s) || (s == here
                && profile::in_runs(walks[s], touches[n - 1].runs@, t))) by {
                if holds(walks, touches, t, n - 1, s) {
                    let i = choose|i: int|
                        0 <= i < n - 1 && (#[trigger] touches[i]).sample == s && profile::in_runs(
                            walks[s],
                            touches[i].runs@,
                            t,
                        );
                    assert(touches[i].sample == s);
                }
                if s == here && profile::in_runs(walks[s], touches[n - 1].runs@, t) {
                    assert(touches[n - 1].sample == s);
                }
            }
            if s == here {
                assert(!holds(walks, touches, t, n - 1, s)) by {
                    if holds(walks, touches, t, n - 1, s) {
                        let i = choose|i: int|
                            0 <= i < n - 1 && (#[trigger] touches[i]).sample == s && profile::in_runs(
                                walks[s],
                                touches[i].runs@,
                                t,
                            );
                        assert(touches[i].sample < touches[n - 1].sample);
                    }
                }
            }
        }
        lemma_total_of_sums(rest, own, all, k);
        lemma_total_of_one(own, k, here);
    } else {
        assert forall|s: int| 0 <= s < k implies #[trigger] all(s) == 0 by {
            assert(!holds(walks, touches, t, 0, s));
        }
        lemma_total_of_nothing(all, k);
    }
}

/// The sample's part in each crossing.
spec fn parts_of(walks: Seq<RayWalk>, groups: Seq<Seq<Touch>>, t: F64, s: int) -> spec_fn(int) -> int {
    |e: int| part(walks, groups[e], t, groups[e].len() as int)(s)
}

/// The sample's part in the first `n` crossings.
spec fn column(walks: Seq<RayWalk>, groups: Seq<Seq<Touch>>, t: F64, n: int) -> spec_fn(int) -> int {
    |s: int| total(parts_of(walks, groups, t, s), n)
}

/// Adding up crossing by crossing is adding up sample by sample.
proof fn lemma_by_sample(walks: Seq<RayWalk>, groups: Seq<Seq<Touch>>, t: F64, n: int)
    requires
        0 <= n <= groups.len(),
        forall|e: int| 0 <= e < groups.len() ==> crossings::samples_rise(#[trigger] groups[e]),
        forall|e: int, i: int|
            0 <= e < groups.len() && 0 <= i < groups[e].len() ==> (#[trigger] groups[e][i]).sample < walks.len(),
    ensures
        crossings_at(walks, groups, t, n) == total(column(walks, groups, t, n), walks.len() as int),
    decreases n,
{
    let k = walks.len() as int;
    let all = column(walks, groups, t, n);
    if n > 0 {
        lemma_by_sample(walks, groups, t, n - 1);
        let touches = groups[n - 1];
        assert forall|i: int| 0 <= i < touches.len() implies (#[trigger] touches[i]).sample < walks.len() by {
            assert(groups[n - 1][i].sample < walks.len());
        }
        lemma_crossing_by_sample(walks, touches, t, touches.len() as int);
        let rest = column(walks, groups, t, n - 1);
        let own = part(walks, touches, t, touches.len() as int);
        assert forall|s: int| 0 <= s < k implies #[trigger] all(s) == rest(s) + own(s) by {
            assert(parts_of(walks, groups, t, s)(n - 1) == own(s));
        }
        lemma_total_of_sums(rest, own, all, k);
    } else {
        assert forall|s: int| 0 <= s < k implies #[trigger] all(s) == 0 by {}
        lemma_total_of_nothing(all, k);
    }
}

/// The distance lies in the run.
spec fn is_in(walk: RayWalk, r: int, t: F64) -> bool {
    walk.runs@[r].start.at_most(t) && t.below(walk.runs@[r].end)
}

/// Where no run is, nothing is met.
proof fn lemma_nothing_met(
    walk: RayWalk,
    corridor: RayCorridor,
    laws: WalkLaws,
    rows: Seq<(Entity, F32)>,
    factors: Map<Entity, F32>,
    t: F64,
    i: int,
)
    requires
        ray::is_walk(walk, corridor, laws, rows, factors),
        ray::has_form(corridor),
        table::ordered(rows),
        forall|r: int| 0 <= r < walk.runs@.len() ==> !#[trigger] is_in(walk, r, t),
        0 <= i,
    ensures
        profile::span_at(walk.spans@, t, i) matches Some(span) ==> span.factor.value() == 0,
    decreases walk.spans@.len() - i,
{
    let charted = walk.spans@;
    if i < charted.len() {
        if charted[i].start.at_most(t) && t.below(charted[i].end) {
            fragment::lemma_paved(walk, corridor, laws, rows, factors);
            let span = charted[i];
            assert(span.factor.finite() && !span.factor.negative());
            span.factor.lemma_nonnegative();
            F32::zero().lemma_nonnegative();
            if span.is_material() {
                let r = fragment::lemma_material_in_run(walk, corridor, laws, rows, factors, i);
                fragment::lemma_places(walk, corridor, laws, rows, factors, r);
                assert(is_in(walk, r, t));
            }
        } else {
            lemma_nothing_met(walk, corridor, laws, rows, factors, t, i + 1);
        }
    }
}

/// Each run of the sample belongs to one of the groups and to no other.
spec fn is_parted(walks: Seq<RayWalk>, groups: Seq<Seq<Touch>>, s: int) -> bool {
    &&& forall|r: int| 0 <= r < walks[s].runs@.len() ==> #[trigger] crossings::is_shared(groups, s, r)
    &&& forall|i: int, j: int, r: int|
        0 <= i < groups.len() && 0 <= j < groups.len() && #[trigger] crossings::has_run(groups[i], s, r)
            && #[trigger] crossings::has_run(groups[j], s, r) ==> i == j
    &&& forall|e: int, i: int, m: int|
        0 <= e < groups.len() && 0 <= i < groups[e].len() && groups[e][i].sample == s && 0 <= m
            < groups[e][i].runs@.len() ==> (#[trigger] groups[e][i].runs@[m]) < walks[s].runs@.len()
}

proof fn lemma_parted(walk: DiscWalk, corridor: DiscCorridor, groups: Seq<Seq<Touch>>, s: int)
    requires
        crossings::shares_out(walk, corridor, groups),
        0 <= s < walk.walks@.len(),
    ensures
        is_parted(walk.walks@, groups, s),
{
    let walks = walk.walks@;
    assert forall|r: int| 0 <= r < walks[s].runs@.len() implies #[trigger] crossings::is_shared(groups, s, r) by {
        assert(0 <= r < walk.walks@[s].runs@.len());
    }
    assert forall|i: int, j: int, r: int|
        0 <= i < groups.len() && 0 <= j < groups.len() && #[trigger] crossings::has_run(groups[i], s, r)
            && #[trigger] crossings::has_run(groups[j], s, r) implies i == j by {
        if i < j {
            assert(!crossings::has_run(groups[j], s, r));
        } else if j < i {
            assert(!crossings::has_run(groups[i], s, r));
        }
    }
    assert forall|e: int, i: int, m: int|
        0 <= e < groups.len() && 0 <= i < groups[e].len() && groups[e][i].sample == s && 0 <= m
            < groups[e][i].runs@.len() implies (#[trigger] groups[e][i].runs@[m]) < walks[s].runs@.len() by {
        assert(extent::touches_fit(groups[e], corridor, walks));
    }
}

/// A group that holds the sample at a distance has the run that the distance lies in.
proof fn lemma_holder(walks: Seq<RayWalk>, groups: Seq<Seq<Touch>>, t: F64, s: int, e: int) -> (r: int)
    requires
        is_parted(walks, groups, s),
        0 <= e < groups.len(),
        holds(walks, groups[e], t, groups[e].len() as int, s),
    ensures
        0 <= r < walks[s].runs@.len(),
        is_in(walks[s], r, t),
        crossings::has_run(groups[e], s, r),
{
    let touches = groups[e];
    let i = choose|i: int|
        0 <= i < touches.len() && (#[trigger] touches[i]).sample == s && profile::in_runs(
            walks[s],
            touches[i].runs@,
            t,
        );
    let runs = touches[i].runs@;
    let m = choose|m: int|
        0 <= m < runs.len() && walks[s].runs@[(#[trigger] runs[m]) as int].start.at_most(t) && t.below(
            walks[s].runs@[runs[m] as int].end,
        );
    assert(groups[e][i].runs@[m] < walks[s].runs@.len());
    assert(crossings::is_touched(touches, s, runs[m] as int, i, m));
    runs[m] as int
}

/// The group of the run that a distance lies in holds the sample there.
proof fn lemma_held(walks: Seq<RayWalk>, touches: Seq<Touch>, t: F64, s: int, r: int)
    requires
        crossings::has_run(touches, s, r),
        is_in(walks[s], r, t),
    ensures
        holds(walks, touches, t, touches.len() as int, s),
{
    let (x, k) = choose|x: int, k: int| #[trigger] crossings::is_touched(touches, s, r, x, k);
    let runs = touches[x].runs@;
    assert(walks[s].runs@[runs[k] as int].start.at_most(t));
    assert(profile::in_runs(walks[s], touches[x].runs@, t));
    assert(touches[x].sample == s);
}

/// A sample's parts in the crossings make up what it meets.
proof fn lemma_column(
    walks: Seq<RayWalk>,
    groups: Seq<Seq<Touch>>,
    own: RayCorridor,
    laws: WalkLaws,
    rows: Seq<(Entity, F32)>,
    factors: Map<Entity, F32>,
    t: F64,
    s: int,
)
    requires
        ray::is_walk(walks[s], own, laws, rows, factors),
        ray::has_form(own),
        table::ordered(rows),
        is_parted(walks, groups, s),
    ensures
        column(walks, groups, t, groups.len() as int)(s) == met_at(walks[s], t),
{
    let n = groups.len() as int;
    let parts = parts_of(walks, groups, t, s);
    if exists|r: int| 0 <= r < walks[s].runs@.len() && #[trigger] is_in(walks[s], r, t) {
        let r = choose|r: int| 0 <= r < walks[s].runs@.len() && #[trigger] is_in(walks[s], r, t);
        assert(crossings::is_shared(groups, s, r));
        let e = choose|e: int| 0 <= e < groups.len() && #[trigger] crossings::has_run(groups[e], s, r);
        lemma_held(walks, groups[e], t, s, r);
        assert(parts(e) == met_at(walks[s], t));
        assert forall|d: int| 0 <= d < n && d != e implies #[trigger] parts(d) == 0 by {
            if holds(walks, groups[d], t, groups[d].len() as int, s) {
                let q = lemma_holder(walks, groups, t, s, d);
                if q < r {
                    fragment::lemma_runs_apart(walks[s], own, laws, rows, factors, q, r);
                } else if r < q {
                    fragment::lemma_runs_apart(walks[s], own, laws, rows, factors, r, q);
                }
                assert(q == r);
            }
        }
        lemma_total_of_one(parts, n, e);
    } else {
        lemma_nothing_met(walks[s], own, laws, rows, factors, t, 0);
        assert forall|d: int| 0 <= d < n implies #[trigger] parts(d) == 0 by {
            if holds(walks, groups[d], t, groups[d].len() as int, s) {
                let q = lemma_holder(walks, groups, t, s, d);
            }
        }
        lemma_total_of_nothing(parts, n);
    }
}

/// The crossings share out the disc's field: at every distance, what they hold adds up exactly
/// to what the samples meet.
pub proof fn law_crossings_share_out_the_field(
    walk: DiscWalk,
    corridor: DiscCorridor,
    laws: WalkLaws,
    rows: Seq<(Entity, F32)>,
    factors: Map<Entity, F32>,
    groups: Seq<Seq<Touch>>,
    t: F64,
)
    requires
        disc_walk::is_disc_walk(walk, corridor, laws, rows, factors),
        table::ordered(rows),
        crossings::shares_out(walk, corridor, groups),
    ensures
        crossings_at(walk.walks@, groups, t, groups.len() as int) == samples_at(
            walk.walks@,
            t,
            walk.walks@.len() as int,
        ),
{
    let walks = walk.walks@;
    let k = walks.len() as int;
    assert forall|e: int, i: int| 0 <= e < groups.len() && 0 <= i < groups[e].len() implies (#[trigger] groups[e][i]).sample
        < walks.len() by {
        assert(extent::touches_fit(groups[e], corridor, walks));
    }
    lemma_by_sample(walks, groups, t, groups.len() as int);
    let met = |s: int| met_at(walks[s], t);
    let all = column(walks, groups, t, groups.len() as int);
    assert forall|s: int| 0 <= s < k implies #[trigger] all(s) == met(s) by {
        assert(ray::is_walk(walks[s], disc_walk::sample_corridor(corridor, s), laws, rows, factors));
        assert(disc_walk::walkable(corridor, laws, factors, s));
        lemma_parted(walk, corridor, groups, s);
        lemma_column(
            walks,
            groups,
            disc_walk::sample_corridor(corridor, s),
            laws,
            rows,
            factors,
            t,
            s,
        );
    }
    lemma_total_same(all, met, k);
    lemma_met(walks, t, k);
}

proof fn lemma_met(walks: Seq<RayWalk>, t: F64, n: int)
    requires
        0 <= n <= walks.len(),
    ensures
        total(|s: int| met_at(walks[s], t), n) == samples_at(walks, t, n),
    decreases n,
{
    if n > 0 {
        lemma_met(walks, t, n - 1);
    }
}

} // verus!
