//! The exact costs of a disc's crossings, and that they add up to those of its samples.

use crate::ballistics::walk::crossings;
use crate::ballistics::walk::disc::{DiscCorridor, DiscEvent, DiscWalk};
use crate::ballistics::walk::disc_walk;
use crate::ballistics::walk::event;
use crate::ballistics::walk::extent;
use crate::ballistics::walk::extent::Touch;
use crate::ballistics::walk::fragment;
use crate::ballistics::walk::integral;
use crate::ballistics::walk::laws;
use crate::ballistics::walk::profile;
use crate::ballistics::walk::ray;
use crate::ballistics::walk::ray::RayWalk;
use crate::ballistics::walk::rising;
use crate::ballistics::walk::sharing;
use crate::ballistics::walk::table;
use crate::ballistics::walk::vocabulary::{Entity, WalkLaws};
use crate::float::{F32, F64};
use crate::format::Format;
use vstd::prelude::*;

verus! {

/// The last distance at or before a position that a double can hold.
spec fn is_floor(t: F64, x: int) -> bool {
    &&& t.finite()
    &&& 0 <= t.value() <= x
    &&& forall|b: F64| b.finite() && (#[trigger] b.value()) <= x ==> b.value() <= t.value()
}

spec fn floor_of(x: int) -> F64 {
    choose|t: F64| is_floor(t, x)
}

proof fn lemma_floor_upto(x: int, n: nat) -> (t: F64)
    requires
        0 <= x,
        0 < n <= Format::Double.infinity(),
    ensures
        t.bits < n,
        0 <= t.value() <= x,
        forall|b: F64| b.bits < n && (#[trigger] b.value()) <= x ==> b.value() <= t.value(),
    decreases n,
{
    reveal(F64::value);
    let f = Format::Double;
    f.lemma_zero(1);
    if n == 1 {
        F64 { bits: 0 }
    } else if f.magnitude((n - 1) as nat) <= x {
        let t = F64 { bits: (n - 1) as u64 };
        assert forall|b: F64| b.bits < n && (#[trigger] b.value()) <= x implies b.value() <= t.value() by {
            if b.bits < n - 1 {
                f.lemma_monotone(b.bits as nat, (n - 1) as nat);
            }
        }
        t
    } else {
        lemma_floor_upto(x, (n - 1) as nat)
    }
}

proof fn lemma_floor(x: int)
    requires
        0 <= x,
    ensures
        is_floor(floor_of(x), x),
{
    let f = Format::Double;
    let t = lemma_floor_upto(x, f.infinity());
    assert(t.finite());
    assert forall|b: F64| b.finite() && (#[trigger] b.value()) <= x implies b.value() <= t.value() by {
        reveal(F64::value);
        if b.bits >= f.infinity() {
            assert(f.negative(b.bits as nat));
        }
    }
    assert(is_floor(t, x));
}

proof fn lemma_total_flat(f: spec_fn(int) -> int, a: int, b: int, level: int)
    requires
        0 <= a <= b,
        forall|x: int| a <= x < b ==> #[trigger] f(x) == level,
    ensures
        sharing::total(f, b) == sharing::total(f, a) + (b - a) * level,
    decreases b - a,
{
    if a < b {
        lemma_total_flat(f, a, b - 1, level);
        assert(f(b - 1) == level);
        assert((b - a) * level == (b - 1 - a) * level + level) by (nonlinear_arith);
    } else {
        assert((b - a) * level == 0) by (nonlinear_arith)
            requires a == b;
    }
}

/// What a sample meets, position by position.
spec fn sample_field(walk: RayWalk) -> spec_fn(int) -> int {
    |x: int| sharing::met_at(walk, floor_of(x))
}

/// What a crossing holds, position by position.
spec fn crossing_field(walks: Seq<RayWalk>, touches: Seq<Touch>) -> spec_fn(int) -> int {
    |x: int| sharing::crossing_at(walks, touches, floor_of(x), touches.len() as int)
}

spec fn crossings_field(walks: Seq<RayWalk>, groups: Seq<Seq<Touch>>, n: int) -> spec_fn(int) -> int {
    |x: int| sharing::crossings_at(walks, groups, floor_of(x), n)
}

spec fn samples_field(walks: Seq<RayWalk>, n: int) -> spec_fn(int) -> int {
    |x: int| sharing::samples_at(walks, floor_of(x), n)
}

/// What a sample meets adds up to the exact integral of its spans.
proof fn lemma_sample_swept(walk: RayWalk, to: int, n: int)
    requires
        fragment::is_paved(walk.spans@, to),
        integral::is_regular(walk.spans@),
        0 <= n <= walk.spans@.len(),
    ensures
        sharing::total(
            sample_field(walk),
            if n == 0 {
                0
            } else {
                walk.spans@[n - 1].end.value()
            },
        ) == laws::integral_of(walk.spans@, n),
    decreases n,
{
    let charted = walk.spans@;
    if n > 0 {
        lemma_sample_swept(walk, to, n - 1);
        let span = charted[n - 1];
        laws::lemma_forward(charted, 0, to, n - 1);
        if n > 1 {
            assert(charted[n - 2].end == charted[n - 2 + 1].start);
        }
        let field = sample_field(walk);
        assert forall|x: int| span.start.value() <= x < span.end.value() implies #[trigger] field(x)
            == span.factor.value() by {
            lemma_floor(x);
            let t = floor_of(x);
            fragment::lemma_span_at(charted, to, t, n - 1, 0);
        }
        lemma_total_flat(field, span.start.value(), span.end.value(), span.factor.value());
    }
}

/// The middle of each stretch, as it rounds, lies inside the stretch. That fails only of a stretch so
/// short that no distance lies between its ends.
pub open spec fn has_middles(ts: Seq<F64>) -> bool {
    forall|i: int|
        0 < i < ts.len() ==> ts[i - 1].at_most(profile::midpoint(ts[i - 1], ts[i])) && profile::midpoint(
            ts[i - 1],
            #[trigger] ts[i],
        ).below(ts[i])
}

/// The exact cost of the first `n` stretches between breaks, over all samples: length times the
/// factors in the middle, no rounding.
pub open spec fn stretched(walks: Seq<RayWalk>, touches: Seq<Touch>, ts: Seq<F64>, n: int) -> int
    decreases n,
{
    if n <= 0 {
        0
    } else {
        stretched(walks, touches, ts, n - 1) + (ts[n].value() - ts[n - 1].value()) * sharing::crossing_at(
            walks,
            touches,
            profile::midpoint(ts[n - 1], ts[n]),
            touches.len() as int,
        )
    }
}

/// What a crossing holds adds up to the exact cost of its stretches.
proof fn lemma_crossing_swept(
    walks: Seq<RayWalk>,
    touches: Seq<Touch>,
    to: int,
    event: DiscEvent,
    corridor: DiscCorridor,
    n: int,
)
    requires
        rising::are_laid(walks, touches, to),
        touches.len() > 0,
        event::is_event(event, corridor, walks, touches),
        rising::is_reached(event.start),
        rising::is_reached(event.end),
        event.start.value() <= event.end.value(),
        rising::is_spanned(event),
        has_middles(event.profile.ts@),
        0 <= n < event.profile.ts@.len(),
    ensures
        sharing::total(crossing_field(walks, touches), event.profile.ts@[n].value()) == stretched(
            walks,
            touches,
            event.profile.ts@,
            n,
        ),
    decreases n,
{
    let ts = event.profile.ts@;
    let field = crossing_field(walks, touches);
    let all = touches.len() as int;
    if n == 0 {
        assert forall|x: int| 0 <= x < ts[0].value() implies #[trigger] field(x) == 0 by {
            lemma_floor(x);
            rising::lemma_beside(walks, touches, to, floor_of(x), all);
        }
        assert(ts[0].finite());
        lemma_total_flat(field, 0, ts[0].value(), 0);
        assert(sharing::total(field, 0) == 0);
    } else {
        lemma_crossing_swept(walks, touches, to, event, corridor, n - 1);
        let (a, b) = (ts[n - 1], ts[n]);
        assert(a.below(b) && a.finite() && b.finite());
        let mid = profile::midpoint(a, b);
        assert(a.at_most(profile::midpoint(ts[n - 1], ts[n])) && mid.below(b));
        let level = sharing::crossing_at(walks, touches, mid, all);
        rising::lemma_between(walks, touches, to, ts, event.start, event.end, n, a, mid);
        assert forall|x: int| a.value() <= x < b.value() implies #[trigger] field(x) == level by {
            lemma_floor(x);
            let t = floor_of(x);
            rising::lemma_between(walks, touches, to, ts, event.start, event.end, n, a, t);
        }
        lemma_total_flat(field, a.value(), b.value(), level);
    }
}

/// The exact costs of the first `n` crossings, over all samples.
pub open spec fn events_exact(walks: Seq<RayWalk>, groups: Seq<Seq<Touch>>, events: Seq<DiscEvent>, n: int) -> int
    decreases n,
{
    if n <= 0 {
        0
    } else {
        events_exact(walks, groups, events, n - 1) + stretched(
            walks,
            groups[n - 1],
            events[n - 1].profile.ts@,
            events[n - 1].profile.ts@.len() - 1,
        )
    }
}

/// The exact costs of the first `n` samples.
pub open spec fn samples_exact(walks: Seq<RayWalk>, n: int) -> int
    decreases n,
{
    if n <= 0 {
        0
    } else {
        samples_exact(walks, n - 1) + laws::integral_of(walks[n - 1].spans@, walks[n - 1].spans@.len() as int)
    }
}

proof fn lemma_events_swept(
    walk: DiscWalk,
    corridor: DiscCorridor,
    laws: WalkLaws,
    rows: Seq<(Entity, F32)>,
    factors: Map<Entity, F32>,
    groups: Seq<Seq<Touch>>,
    n: int,
)
    requires
        disc_walk::is_disc_walk(walk, corridor, laws, rows, factors),
        table::ordered(rows),
        crossings::shares_out(walk, corridor, groups),
        forall|e: int| 0 <= e < walk.events@.len() ==> has_middles((#[trigger] walk.events@[e]).profile.ts@),
        0 <= n <= groups.len(),
        0 <= corridor.length.doubled().value(),
    ensures
        sharing::total(crossings_field(walk.walks@, groups, n), corridor.length.doubled().value()) == events_exact(
            walk.walks@,
            groups,
            walk.events@,
            n,
        ),
    decreases n,
{
    let (walks, to) = (walk.walks@, corridor.length.doubled().value());
    let all = crossings_field(walks, groups, n);
    if n > 0 {
        lemma_events_swept(walk, corridor, laws, rows, factors, groups, n - 1);
        let (touches, event) = (groups[n - 1], walk.events@[n - 1]);
        rising::lemma_group(walk, corridor, laws, rows, factors, groups, n - 1);
        rising::law_a_profile_spans_its_crossing(walk, corridor, laws, rows, factors, n - 1);
        let ts = event.profile.ts@;
        let last = ts.len() - 1;
        lemma_crossing_swept(walks, touches, to, event, corridor, last);
        rising::lemma_ends_within(walks, touches, to, touches.len() as int);
        let own = crossing_field(walks, touches);
        let end = ts[last].value();
        assert forall|x: int| end <= x < to implies #[trigger] own(x) == 0 by {
            lemma_floor(x);
            assert(event.end.value() <= floor_of(x).value());
            rising::lemma_beside(walks, touches, to, floor_of(x), touches.len() as int);
        }
        assert(ts[last].finite());
        lemma_total_flat(own, end, to, 0);
        let rest = crossings_field(walks, groups, n - 1);
        assert forall|x: int| 0 <= x < to implies #[trigger] all(x) == rest(x) + own(x) by {}
        sharing::lemma_total_of_sums(rest, own, all, to);
    } else {
        assert forall|x: int| 0 <= x < to implies #[trigger] all(x) == 0 by {}
        sharing::lemma_total_of_nothing(all, to);
    }
}

proof fn lemma_samples_swept(
    walk: DiscWalk,
    corridor: DiscCorridor,
    laws: WalkLaws,
    rows: Seq<(Entity, F32)>,
    factors: Map<Entity, F32>,
    n: int,
)
    requires
        disc_walk::is_disc_walk(walk, corridor, laws, rows, factors),
        table::ordered(rows),
        0 <= n <= walk.walks@.len(),
        0 <= corridor.length.doubled().value(),
    ensures
        sharing::total(samples_field(walk.walks@, n), corridor.length.doubled().value()) == samples_exact(
            walk.walks@,
            n,
        ),
    decreases n,
{
    let (walks, to) = (walk.walks@, corridor.length.doubled().value());
    let all = samples_field(walks, n);
    if n > 0 {
        lemma_samples_swept(walk, corridor, laws, rows, factors, n - 1);
        let own_corridor = disc_walk::sample_corridor(corridor, n - 1);
        assert(ray::is_walk(walks[n - 1], own_corridor, laws, rows, factors));
        assert(disc_walk::walkable(corridor, laws, factors, n - 1));
        fragment::lemma_paved(walks[n - 1], own_corridor, laws, rows, factors);
        integral::lemma_regular(walks[n - 1], own_corridor, laws, rows, factors);
        let spans = walks[n - 1].spans@;
        lemma_sample_swept(walks[n - 1], to, spans.len() as int);
        let own = sample_field(walks[n - 1]);
        let rest = samples_field(walks, n - 1);
        assert forall|x: int| 0 <= x < to implies #[trigger] all(x) == rest(x) + own(x) by {}
        sharing::lemma_total_of_sums(rest, own, all, to);
    } else {
        assert forall|x: int| 0 <= x < to implies #[trigger] all(x) == 0 by {}
        sharing::lemma_total_of_nothing(all, to);
    }
}

/// What the crossings of a disc cost is what its samples cost, exactly: the stretches of all
/// profiles add up to the spans of all samples.
pub proof fn law_exact_costs_add_up(
    walk: DiscWalk,
    corridor: DiscCorridor,
    laws: WalkLaws,
    rows: Seq<(Entity, F32)>,
    factors: Map<Entity, F32>,
    groups: Seq<Seq<Touch>>,
)
    requires
        disc_walk::is_disc_walk(walk, corridor, laws, rows, factors),
        table::ordered(rows),
        crossings::shares_out(walk, corridor, groups),
        forall|e: int| 0 <= e < walk.events@.len() ==> has_middles((#[trigger] walk.events@[e]).profile.ts@),
    ensures
        events_exact(walk.walks@, groups, walk.events@, walk.events@.len() as int) == samples_exact(
            walk.walks@,
            walk.walks@.len() as int,
        ),
{
    let (walks, to) = (walk.walks@, corridor.length.doubled().value());
    let (k, n) = (walks.len() as int, groups.len() as int);
    if k > 0 {
        assert(disc_walk::walkable(corridor, laws, factors, 0)) by {
            assert(ray::is_walk(walks[0], disc_walk::sample_corridor(corridor, 0), laws, rows, factors));
        }
        laws::lemma_length(disc_walk::sample_corridor(corridor, 0));
        lemma_events_swept(walk, corridor, laws, rows, factors, groups, n);
        lemma_samples_swept(walk, corridor, laws, rows, factors, k);
        let (held, met) = (crossings_field(walks, groups, n), samples_field(walks, k));
        assert forall|x: int| 0 <= x < to implies #[trigger] held(x) == met(x) by {
            sharing::law_crossings_share_out_the_field(walk, corridor, laws, rows, factors, groups, floor_of(x));
        }
        sharing::lemma_total_same(held, met, to);
    } else if n > 0 {
        assert(groups[0].len() > 0 && extent::touches_fit(groups[0], corridor, walks));
        assert(groups[0][0].sample < walks.len());
    }
}

} // verus!
