//! What holds of every walked ray.

use crate::ballistics::walk::field;
use crate::ballistics::walk::field::Interval;
use crate::ballistics::walk::ray;
use crate::ballistics::walk::ray::RayWalk;
use crate::ballistics::walk::spans;
use crate::ballistics::walk::spans::Span;
use crate::ballistics::walk::table;
use crate::ballistics::walk::topology;
use crate::ballistics::walk::vocabulary::{Entity, FaceHit, RayCorridor, WalkLaws};
use crate::float::{F32, F64};
use vstd::prelude::*;

verus! {

pub proof fn lemma_filter_count<A>(s: Seq<A>, keep: spec_fn(A) -> bool, x: A)
    ensures
        s.filter(keep).to_multiset().count(x) == if keep(x) {
            s.to_multiset().count(x)
        } else {
            0
        },
    decreases s.len(),
{
    reveal(Seq::filter);
    if s.len() > 0 {
        let rest = s.drop_last();
        lemma_filter_count(rest, keep, x);
        assert(s =~= rest.push(s.last()));
        rest.to_multiset_ensures();
        rest.filter(keep).to_multiset_ensures();
        assert(rest.push(s.last()).to_multiset() =~= rest.to_multiset().insert(s.last()));
        if keep(s.last()) {
            assert(s.filter(keep) =~= rest.filter(keep).push(s.last()));
            assert(s.filter(keep).to_multiset() =~= rest.filter(keep).to_multiset().insert(s.last()));
        } else {
            assert(s.filter(keep) =~= rest.filter(keep));
        }
    } else {
        assert(s.filter(keep) =~= s);
        s.to_multiset_ensures();
    }
}

/// Two lists of the same items keep the same items.
proof fn lemma_filter_multiset<A>(s: Seq<A>, r: Seq<A>, keep: spec_fn(A) -> bool)
    requires
        s.to_multiset() == r.to_multiset(),
    ensures
        s.filter(keep).to_multiset() == r.filter(keep).to_multiset(),
{
    assert forall|x: A| s.filter(keep).to_multiset().count(x) == r.filter(keep).to_multiset().count(x) by {
        lemma_filter_count(s, keep, x);
        lemma_filter_count(r, keep, x);
    }
    assert(s.filter(keep).to_multiset() =~= r.filter(keep).to_multiset());
}

/// The order the hits came in plays no part in the crossings: two corridors that
/// differ in it alone have the same ones, and are well formed or not alike.
pub proof fn law_crossings_in_any_order(a: RayCorridor, b: RayCorridor, laws: WalkLaws)
    requires
        a.hits@.to_multiset() == b.hits@.to_multiset(),
        a.length == b.length,
        a.axis == b.axis,
    ensures
        ray::crossings_of(a, laws) == ray::crossings_of(b, laws),
        ray::intervals_of(a, laws) == ray::intervals_of(b, laws),
        ray::has_hits_ahead(a) == ray::has_hits_ahead(b),
        ray::has_form(a) == ray::has_form(b),
{
    let length = a.length.doubled();
    lemma_filter_multiset(a.hits@, b.hits@, |hit: FaceHit| hit.t.below(length));
    ray::lemma_ordered_hits(a);
    ray::lemma_ordered_hits(b);
    topology::lemma_hit_order_unique(ray::ordered_hits(a), ray::ordered_hits(b));
    if ray::has_hits_ahead(a) {
        lemma_ahead_in_any_order(a, b);
    }
    if ray::has_hits_ahead(b) {
        lemma_ahead_in_any_order(b, a);
    }
}

proof fn lemma_ahead_in_any_order(a: RayCorridor, b: RayCorridor)
    requires
        a.hits@.to_multiset() == b.hits@.to_multiset(),
        a.length == b.length,
        ray::has_hits_ahead(a),
    ensures
        ray::has_hits_ahead(b),
{
    assert forall|i: int| 0 <= i < b.hits@.len() && (#[trigger] b.hits@[i]).t.below(b.length.doubled()) implies ray::is_ahead(
        b.hits@[i],
    ) by {
        let hit = b.hits@[i];
        b.hits@.to_multiset_ensures();
        a.hits@.to_multiset_ensures();
        assert(b.hits@.contains(hit));
        assert(a.hits@.to_multiset().count(hit) > 0);
        assert(a.hits@.contains(hit));
        let j = choose|j: int| 0 <= j < a.hits@.len() && a.hits@[j] == hit;
        assert(a.hits@[j].t.below(a.length.doubled()));
    }
}

/// A hit at or past a corridor's length belongs to the next corridor: without it
/// the crossings are the same.
pub proof fn law_half_open(a: RayCorridor, b: RayCorridor, laws: WalkLaws)
    requires
        b.hits@ == topology::kept(a.hits@, a.length.doubled()),
        a.length == b.length,
        a.axis == b.axis,
    ensures
        ray::crossings_of(a, laws) == ray::crossings_of(b, laws),
{
    let length = a.length.doubled();
    let keep = |hit: FaceHit| hit.t.below(length);
    lemma_filter_twice(a.hits@, keep);
}

proof fn lemma_filter_twice<A>(s: Seq<A>, keep: spec_fn(A) -> bool)
    ensures
        s.filter(keep).filter(keep) == s.filter(keep),
    decreases s.len(),
{
    reveal(Seq::filter);
    if s.len() > 0 {
        let rest = s.drop_last();
        lemma_filter_twice(rest, keep);
        if keep(s.last()) {
            assert(s.filter(keep) =~= rest.filter(keep).push(s.last()));
            rest.filter(keep).lemma_filter_push(s.last(), keep);
        }
    }
}

/// Two charts of one field over one stretch are the same spans, to the bit.
pub proof fn law_one_chart(a: Seq<Span>, b: Seq<Span>, from: int, to: int)
    requires
        0 <= from <= to,
        spans::tiles(a, from, to),
        spans::tiles(b, from, to),
        spans::stepping(a),
        spans::stepping(b),
        a.len() > 0 && b.len() > 0 ==> a[0].start == b[0].start,
        forall|i: int, j: int, x: int|
            0 <= i < a.len() && 0 <= j < b.len() && #[trigger] a[i].holds(x) && #[trigger] b[j].holds(x) ==> a[i].factor
                == b[j].factor,
    ensures
        a == b,
    decreases a.len(),
{
    if a.len() == 0 || b.len() == 0 {
        if a.len() > 0 {
            lemma_forward(a, from, to, 0);
        }
        if b.len() > 0 {
            lemma_forward(b, from, to, 0);
        }
        assert(a =~= b);
    } else {
        lemma_forward(a, from, to, 0);
        lemma_forward(b, from, to, 0);
        assert(a[0].holds(from) && b[0].holds(from));
        if a[0].end.value() < b[0].end.value() {
            lemma_next_starts(a, from, to);
            let x = a[0].end.value();
            assert(a[1].holds(x) && b[0].holds(x));
        } else if b[0].end.value() < a[0].end.value() {
            lemma_next_starts(b, from, to);
            let x = b[0].end.value();
            assert(b[1].holds(x) && a[0].holds(x));
        }
        a[0].end.lemma_same_bits(b[0].end);
        let ra = a.drop_first();
        let rb = b.drop_first();
        let next = a[0].end.value();
        lemma_rest_tiles(a, from, to);
        lemma_rest_tiles(b, from, to);
        assert forall|i: int, j: int, x: int|
            0 <= i < ra.len() && 0 <= j < rb.len() && #[trigger] ra[i].holds(x) && #[trigger] rb[j].holds(
                x,
            ) implies ra[i].factor == rb[j].factor by {
            assert(a[i + 1].holds(x) && b[j + 1].holds(x));
        }
        if ra.len() > 0 {
            assert(ra[0] == a[1]);
            assert(a[0].end == a[1].start);
        }
        if rb.len() > 0 {
            assert(rb[0] == b[1]);
            assert(b[0].end == b[1].start);
        }
        law_one_chart(ra, rb, next, to);
        assert(a =~= seq![a[0]] + ra);
        assert(b =~= seq![b[0]] + rb);
    }
}

/// A span of a tiling lies inside the stretch it tiles.
pub(crate) proof fn lemma_forward(a: Seq<Span>, from: int, to: int, i: int)
    requires
        spans::tiles(a, from, to),
        0 <= i < a.len(),
    ensures
        from <= a[i].start.value() < a[i].end.value() <= to,
{
    lemma_from(a, from, to, i);
    lemma_to(a, from, to, i);
}

proof fn lemma_from(a: Seq<Span>, from: int, to: int, i: int)
    requires
        spans::tiles(a, from, to),
        0 <= i < a.len(),
    ensures
        from <= a[i].start.value(),
    decreases i,
{
    if i > 0 {
        lemma_from(a, from, to, i - 1);
        assert(a[i - 1].start.below(a[i - 1].end));
        assert(a[i - 1].end == a[i - 1 + 1].start);
    }
}

proof fn lemma_to(a: Seq<Span>, from: int, to: int, i: int)
    requires
        spans::tiles(a, from, to),
        0 <= i < a.len(),
    ensures
        a[i].start.value() < a[i].end.value() <= to,
    decreases a.len() - i,
{
    assert(a[i].start.below(a[i].end));
    if i + 1 < a.len() {
        lemma_to(a, from, to, i + 1);
        assert(a[i].end == a[i + 1].start);
    }
}

proof fn lemma_next_starts(a: Seq<Span>, from: int, to: int)
    requires
        spans::tiles(a, from, to),
        spans::stepping(a),
        a.len() > 0,
        a[0].end.value() < to,
    ensures
        a.len() > 1,
        a[1].holds(a[0].end.value()),
        a[0].factor != a[1].factor,
{
    if a.len() == 1 {
        assert(a.last() == a[0]);
    }
    assert(a[0].end == a[0int + 1].start);
    assert(a[1].start.below(a[1].end));
}

proof fn lemma_rest_tiles(a: Seq<Span>, from: int, to: int)
    requires
        spans::tiles(a, from, to),
        spans::stepping(a),
        a.len() > 0,
    ensures
        spans::tiles(a.drop_first(), a[0].end.value(), to),
        spans::stepping(a.drop_first()),
        from <= a[0].end.value() <= to,
{
    lemma_forward(a, from, to, 0);
    let rest = a.drop_first();
    assert forall|i: int| 0 <= i < rest.len() implies (#[trigger] rest[i]).start.below(rest[i].end) by {
        assert(rest[i] == a[i + 1]);
    }
    assert forall|i: int| 0 <= i < rest.len() - 1 implies (#[trigger] rest[i]).end == rest[i + 1].start && rest[i].factor
        != rest[i + 1].factor by {
        assert(rest[i] == a[i + 1]);
        assert(rest[i + 1] == a[i + 1 + 1]);
    }
    if rest.len() > 0 {
        assert(rest[0] == a[1]);
        assert(a[0].end == a[0int + 1].start);
        assert(rest.last() == a.last());
    } else {
        assert(a.last() == a[0]);
    }
}

/// The field depends on the union alone: where two corridors of one length present
/// the same largest factor at every position, their walks have the same spans and
/// the same cost, to the bit. A seam, an overlap or a buried weaker volume is invisible.
pub proof fn law_seams_are_invisible(
    a: RayWalk,
    b: RayWalk,
    ca: RayCorridor,
    cb: RayCorridor,
    laws: WalkLaws,
    rows: Seq<(Entity, F32)>,
    factors: Map<Entity, F32>,
)
    requires
        ray::is_walk(a, ca, laws, rows, factors),
        ray::is_walk(b, cb, laws, rows, factors),
        ray::has_form(ca),
        ca.length == cb.length,
        forall|x: int|
            0 <= x < ca.length.doubled().value() ==> spans::union_factor(rows, ray::intervals_of(ca, laws), x)
                == #[trigger] spans::union_factor(rows, ray::intervals_of(cb, laws), x),
    ensures
        a.spans@ == b.spans@,
        a.cost == b.cost,
{
    lemma_same_field(a, b, ca, cb, laws, rows, factors, rows, factors);
}

/// The same for corridors that are read with a table each.
pub proof fn lemma_same_field(
    a: RayWalk,
    b: RayWalk,
    ca: RayCorridor,
    cb: RayCorridor,
    laws: WalkLaws,
    rows: Seq<(Entity, F32)>,
    factors: Map<Entity, F32>,
    other_rows: Seq<(Entity, F32)>,
    other_factors: Map<Entity, F32>,
)
    requires
        ray::is_walk(a, ca, laws, rows, factors),
        ray::is_walk(b, cb, laws, other_rows, other_factors),
        ray::has_form(ca),
        ca.length == cb.length,
        forall|x: int|
            0 <= x < ca.length.doubled().value() ==> spans::union_factor(rows, ray::intervals_of(ca, laws), x)
                == #[trigger] spans::union_factor(other_rows, ray::intervals_of(cb, laws), x),
    ensures
        a.spans@ == b.spans@,
        a.cost == b.cost,
{
    let to = ca.length.doubled().value();
    let sa = a.spans@;
    let sb = b.spans@;
    lemma_length(ca);
    assert forall|i: int, j: int, x: int|
        0 <= i < sa.len() && 0 <= j < sb.len() && #[trigger] sa[i].holds(x) && #[trigger] sb[j].holds(
            x,
        ) implies sa[i].factor == sb[j].factor by {
        lemma_forward(sa, 0, to, i);
        assert(sa[i].factor == spans::union_factor(rows, ray::intervals_of(ca, laws), x));
        assert(sb[j].factor == spans::union_factor(other_rows, ray::intervals_of(cb, laws), x));
    }
    lemma_first_start(a, ca, laws, rows, factors);
    lemma_first_start(b, cb, laws, other_rows, other_factors);
    law_one_chart(sa, sb, 0, to);
}

pub(crate) proof fn lemma_length(corridor: RayCorridor)
    requires
        ray::has_length(corridor),
    ensures
        !corridor.length.doubled().is_nan(),
        corridor.length.doubled().value() >= 0,
{
    corridor.length.lemma_doubled();
    corridor.length.lemma_nonnegative();
    vstd::arithmetic::power2::lemma_pow2_pos(925);
    let length = corridor.length.doubled();
    assert(length.value() >= 0) by (nonlinear_arith)
        requires
            length.value() == corridor.length.value() * vstd::arithmetic::power2::pow2(925),
            corridor.length.value() >= 0;
}

/// Every span of a walk ends after it starts, at finite distances that are not negative, and its
/// factor is a number that is not negative.
pub(crate) proof fn lemma_proper(
    walk: RayWalk,
    corridor: RayCorridor,
    laws: WalkLaws,
    rows: Seq<(Entity, F32)>,
    factors: Map<Entity, F32>,
    i: int,
)
    requires
        ray::is_walk(walk, corridor, laws, rows, factors),
        ray::has_form(corridor),
        table::ordered(rows),
        0 <= i < walk.spans@.len(),
    ensures
        ({
            let span = walk.spans@[i];
            &&& span.start.below(span.end)
            &&& span.start.finite() && span.end.finite()
            &&& 0 <= span.start.value()
            &&& span.end.difference(span.start).finite()
            &&& span.factor.finite()
            &&& !span.factor.negative()
        }),
{
    let charted = walk.spans@;
    let length = corridor.length.doubled();
    lemma_length(corridor);
    corridor.length.lemma_doubled();
    let span = charted[i];
    lemma_forward(charted, 0, length.value(), i);
    if span.end.value() < length.value() {
        span.end.lemma_under(length);
    } else {
        span.end.lemma_same_bits(length);
    }
    span.start.lemma_under(span.end);
    span.end.lemma_difference_below(span.start);
    span.end.lemma_difference_nonnegative(span.start);
    if span.end.difference(span.start).value() < span.end.value() {
        span.end.difference(span.start).lemma_under(span.end);
    } else {
        span.end.difference(span.start).lemma_same_bits(span.end);
    }
    let x = span.start.value();
    assert(span.holds(x));
    lemma_union_bounds(rows, ray::intervals_of(corridor, laws), x, rows.len() as int);
}

pub(crate) proof fn lemma_first_start(
    walk: RayWalk,
    corridor: RayCorridor,
    laws: WalkLaws,
    rows: Seq<(Entity, F32)>,
    factors: Map<Entity, F32>,
)
    requires
        ray::is_walk(walk, corridor, laws, rows, factors),
    ensures
        walk.spans@.len() > 0 ==> walk.spans@[0].start == F64::zero(),
{
    let steps = field::transitions_from(rows, ray::crossings_of(corridor, laws), corridor.initial_presence@, 0);
    lemma_spans_start(
        steps,
        F64::zero(),
        field::peak(rows, ray::crossings_of(corridor, laws), corridor.initial_presence@, 0),
        corridor.length.doubled(),
    );
}

proof fn lemma_spans_start(steps: Seq<field::Transition>, cursor: F64, factor: F32, length: F64)
    ensures
        spans::spans_from(steps, cursor, factor, length).len() > 0 ==> spans::spans_from(
            steps,
            cursor,
            factor,
            length,
        )[0].start == cursor,
    decreases steps.len(),
{
    if steps.len() > 0 && !cursor.below(steps[0].t) {
        lemma_spans_start(steps.drop_first(), cursor, steps[0].after, length);
    }
}

/// The field is zero or a present volume's factor, and no present volume's factor is larger.
pub(crate) proof fn lemma_union_bounds(rows: Seq<(Entity, F32)>, intervals: Seq<Interval>, x: int, n: int)
    requires
        table::ordered(rows),
        0 <= n <= rows.len(),
    ensures
        ({
            let level = spans::union_of(rows, intervals, x, n);
            &&& level.finite() && !level.negative() && level.value() >= 0
            &&& level.value() == 0 ==> level == F32::zero()
            &&& forall|i: int|
                0 <= i < n && spans::volume_covered(intervals, (#[trigger] rows[i]).0, x) ==> rows[i].1.value()
                    <= level.value()
            &&& level == F32::zero() || exists|i: int|
                0 <= i < n && spans::volume_covered(intervals, (#[trigger] rows[i]).0, x) && rows[i].1 == level
        }),
    decreases n,
{
    F32::zero().lemma_nonnegative();
    if n > 0 {
        lemma_union_bounds(rows, intervals, x, n - 1);
        rows[n - 1].1.lemma_nonnegative();
        let rest = spans::union_of(rows, intervals, x, n - 1);
        let level = spans::union_of(rows, intervals, x, n);
        if level == rest && rest != F32::zero() {
            let i = choose|i: int|
                0 <= i < n - 1 && spans::volume_covered(intervals, (#[trigger] rows[i]).0, x) && rows[i].1 == rest;
            assert(spans::volume_covered(intervals, rows[i].0, x) && rows[i].1 == level);
        }
        if spans::volume_covered(intervals, rows[n - 1].0, x) {
            if level == rows[n - 1].1 {
                assert(spans::volume_covered(intervals, rows[n - 1].0, x) && rows[n - 1].1 == level);
            }
        }
    }
}

/// More presence never lowers the field.
pub proof fn law_presence_never_lowers(rows: Seq<(Entity, F32)>, a: Seq<Interval>, b: Seq<Interval>, x: int)
    requires
        table::ordered(rows),
        forall|volume: Entity| #[trigger] spans::volume_covered(a, volume, x) ==> spans::volume_covered(b, volume, x),
    ensures
        spans::union_factor(rows, a, x).value() <= spans::union_factor(rows, b, x).value(),
{
    let n = rows.len() as int;
    lemma_union_bounds(rows, a, x, n);
    lemma_union_bounds(rows, b, x, n);
    F32::zero().lemma_nonnegative();
    let level = spans::union_factor(rows, a, x);
    if level != F32::zero() {
        let i = choose|i: int|
            0 <= i < n && spans::volume_covered(a, (#[trigger] rows[i]).0, x) && rows[i].1 == level;
        assert(spans::volume_covered(b, rows[i].0, x));
    }
}

/// A volume present in `a` at the position is at least as strong as row `i`'s.
pub open spec fn outmatched(rows: Seq<(Entity, F32)>, a: Seq<Interval>, x: int, i: int) -> bool {
    exists|j: int|
        0 <= j < rows.len() && spans::volume_covered(a, (#[trigger] rows[j]).0, x) && rows[i].1.value()
            <= rows[j].1.value()
}

/// Presence that a stronger or equal volume already covers changes nothing.
pub proof fn law_dominated_presence_is_free(rows: Seq<(Entity, F32)>, a: Seq<Interval>, b: Seq<Interval>, x: int)
    requires
        table::ordered(rows),
        forall|volume: Entity| #[trigger] spans::volume_covered(a, volume, x) ==> spans::volume_covered(b, volume, x),
        forall|i: int|
            0 <= i < rows.len() && spans::volume_covered(b, rows[i].0, x) ==> #[trigger] outmatched(rows, a, x, i),
    ensures
        spans::union_factor(rows, a, x) == spans::union_factor(rows, b, x),
{
    let n = rows.len() as int;
    law_presence_never_lowers(rows, a, b, x);
    lemma_union_bounds(rows, a, x, n);
    lemma_union_bounds(rows, b, x, n);
    F32::zero().lemma_nonnegative();
    let la = spans::union_factor(rows, a, x);
    let lb = spans::union_factor(rows, b, x);
    if lb != F32::zero() {
        let i = choose|i: int| 0 <= i < n && spans::volume_covered(b, (#[trigger] rows[i]).0, x) && rows[i].1 == lb;
        assert(outmatched(rows, a, x, i));
        let j = choose|j: int|
            0 <= j < rows.len() && spans::volume_covered(a, (#[trigger] rows[j]).0, x) && rows[i].1.value()
                <= rows[j].1.value();
        assert(rows[j].1.value() <= la.value());
        if la.value() != 0 {
            la.lemma_same_bits(lb);
        }
    }
}

/// The exact integral of the first `n` spans: length times factor, no rounding.
pub open spec fn integral_of(spans: Seq<Span>, n: int) -> int
    decreases n,
{
    if n <= 0 {
        0
    } else {
        integral_of(spans, n - 1) + (spans[n - 1].end.value() - spans[n - 1].start.value()) * spans[n - 1].factor.value()
    }
}

/// The field summed over the positions below `to`.
pub open spec fn swept(rows: Seq<(Entity, F32)>, intervals: Seq<Interval>, to: int) -> int
    decreases to,
{
    if to <= 0 {
        0
    } else {
        swept(rows, intervals, to - 1) + spans::union_factor(rows, intervals, to - 1).value()
    }
}

proof fn lemma_swept_flat(rows: Seq<(Entity, F32)>, intervals: Seq<Interval>, a: int, b: int, level: F32)
    requires
        0 <= a <= b,
        forall|x: int| a <= x < b ==> #[trigger] spans::union_factor(rows, intervals, x) == level,
    ensures
        swept(rows, intervals, b) == swept(rows, intervals, a) + (b - a) * level.value(),
    decreases b - a,
{
    if a < b {
        lemma_swept_flat(rows, intervals, a, b - 1, level);
        assert(spans::union_factor(rows, intervals, b - 1) == level);
        assert((b - a) * level.value() == (b - 1 - a) * level.value() + level.value()) by (nonlinear_arith);
    } else {
        assert((b - a) * level.value() == 0) by (nonlinear_arith)
            requires a == b;
    }
}

proof fn lemma_integral_is_swept(
    charted: Seq<Span>,
    rows: Seq<(Entity, F32)>,
    intervals: Seq<Interval>,
    to: int,
    n: int,
)
    requires
        0 <= to,
        spans::tiles(charted, 0, to),
        spans::charts(charted, rows, intervals),
        0 <= n <= charted.len(),
    ensures
        integral_of(charted, n) == swept(
            rows,
            intervals,
            if n == 0 {
                0
            } else {
                charted[n - 1].end.value()
            },
        ),
    decreases n,
{
    if n > 0 {
        lemma_integral_is_swept(charted, rows, intervals, to, n - 1);
        let span = charted[n - 1];
        lemma_forward(charted, 0, to, n - 1);
        if n > 1 {
            assert(charted[n - 2].end == charted[n - 2 + 1].start);
        }
        assert forall|x: int| span.start.value() <= x < span.end.value() implies #[trigger] spans::union_factor(
            rows,
            intervals,
            x,
        ) == span.factor by {
            assert(charted[n - 1].holds(x));
        }
        lemma_swept_flat(rows, intervals, span.start.value(), span.end.value(), span.factor);
    }
}

/// A walk's spans integrate to the field summed over the corridor.
pub proof fn law_spans_integrate_the_field(
    walk: RayWalk,
    corridor: RayCorridor,
    laws: WalkLaws,
    rows: Seq<(Entity, F32)>,
    factors: Map<Entity, F32>,
)
    requires
        ray::is_walk(walk, corridor, laws, rows, factors),
        ray::has_form(corridor),
    ensures
        integral_of(walk.spans@, walk.spans@.len() as int) == swept(
            rows,
            ray::intervals_of(corridor, laws),
            corridor.length.doubled().value(),
        ),
{
    lemma_length(corridor);
    lemma_integral_is_swept(
        walk.spans@,
        rows,
        ray::intervals_of(corridor, laws),
        corridor.length.doubled().value(),
        walk.spans@.len() as int,
    );
}

pub proof fn lemma_swept_monotone(
    rows: Seq<(Entity, F32)>,
    a: Seq<Interval>,
    others: Seq<(Entity, F32)>,
    b: Seq<Interval>,
    to: int,
)
    requires
        forall|x: int|
            0 <= x < to ==> (#[trigger] spans::union_factor(rows, a, x)).value() <= spans::union_factor(
                others,
                b,
                x,
            ).value(),
    ensures
        swept(rows, a, to) <= swept(others, b, to),
    decreases to,
{
    if to > 0 {
        lemma_swept_monotone(rows, a, others, b, to - 1);
        assert(spans::union_factor(rows, a, to - 1).value() <= spans::union_factor(others, b, to - 1).value());
    }
}

} // verus!
