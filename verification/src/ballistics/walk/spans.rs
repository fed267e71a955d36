//! The canonical spans of the field, and their cost.

use crate::ballistics::walk::field;
use crate::ballistics::walk::field::{Interval, Transition};
use crate::ballistics::walk::topology;
use crate::ballistics::walk::topology::Toggle;
use crate::ballistics::walk::vocabulary::{Entity, ShellKey};
use crate::float::{F32, F64};
use vstd::prelude::*;

verus! {

/// One maximal stretch of constant factor. Spans are cut only where the largest
/// factor changes, never where the set of shells behind it does.
#[derive(Clone, Copy, Debug, PartialEq, Eq, Structural)]
pub struct Span {
    pub start: F64,
    pub end: F64,
    pub factor: F32,
}

impl Span {
    /// The length of the stretch.
    pub open spec fn spec_len(self) -> F64 {
        self.end.difference(self.start)
    }

    /// The length charged at the factor.
    pub open spec fn spec_cost(self) -> F64 {
        self.spec_len().product(self.factor.doubled())
    }

    pub fn len(&self) -> (length: F64)
        ensures
            length == self.spec_len(),
    {
        self.end.minus(self.start)
    }

    pub fn cost(&self) -> (cost: F64)
        ensures
            cost == self.spec_cost(),
    {
        self.len().times(self.factor.to_double())
    }

    /// There is material in the stretch.
    pub open spec fn is_material(self) -> bool {
        F32::zero().below(self.factor)
    }

    /// The stretch holds the position.
    pub open spec fn holds(self, x: int) -> bool {
        self.start.value() <= x < self.end.value()
    }
}

/// The stretches between changes, from `cursor` to the end of the corridor.
pub open spec fn spans_from(transitions: Seq<Transition>, cursor: F64, factor: F32, length: F64) -> Seq<Span>
    decreases transitions.len(),
{
    if transitions.len() == 0 {
        if cursor.below(length) {
            seq![Span { start: cursor, end: length, factor }]
        } else {
            Seq::empty()
        }
    } else {
        let step = transitions[0];
        if cursor.below(step.t) {
            seq![Span { start: cursor, end: step.t, factor }] + spans_from(
                transitions.drop_first(),
                step.t,
                step.after,
                length,
            )
        } else {
            spans_from(transitions.drop_first(), cursor, step.after, length)
        }
    }
}

/// The cost of the first `n` spans, accumulated in order.
pub open spec fn cost_of(spans: Seq<Span>, n: int) -> F64
    decreases n,
{
    if n <= 0 {
        F64::zero()
    } else if spans[n - 1].is_material() {
        cost_of(spans, n - 1).sum(spans[n - 1].spec_cost())
    } else {
        cost_of(spans, n - 1)
    }
}

/// Cuts the corridor at the changes of the field.
pub fn cut_spans(transitions: &Vec<Transition>, start: F32, length: F64) -> (spans: Vec<Span>)
    ensures
        spans@ == spans_from(transitions@, F64::zero(), start, length),
{
    let mut spans: Vec<Span> = Vec::new();
    let mut cursor: F64 = F64::zero();
    let mut factor: F32 = start;
    let mut next: usize = 0;
    let ghost all = spans_from(transitions@, cursor, factor, length);
    assert(transitions@.skip(0) =~= transitions@);
    assert(spans@ + all =~= all);
    while next < transitions.len()
        invariant
            next <= transitions.len(),
            spans@ + spans_from(transitions@.skip(next as int), cursor, factor, length) == all,
        decreases transitions.len() - next,
    {
        let step: Transition = transitions[next];
        let ghost rest = transitions@.skip(next as int);
        let ghost before = spans@;
        assert(rest.drop_first() =~= transitions@.skip(next + 1));
        assert(rest[0] == step);
        if cursor.lt(step.t) {
            spans.push(Span { start: cursor, end: step.t, factor });
            assert(spans@ + spans_from(rest.drop_first(), step.t, step.after, length) =~= before + spans_from(
                rest,
                cursor,
                factor,
                length,
            ));
            cursor = step.t;
        }
        factor = step.after;
        next = next + 1;
    }
    let ghost before = spans@;
    if cursor.lt(length) {
        spans.push(Span { start: cursor, end: length, factor });
    }
    assert(spans@ =~= before + spans_from(transitions@.skip(next as int), cursor, factor, length));
    spans
}

/// The cost of the material spans.
pub fn total_cost(spans: &Vec<Span>) -> (cost: F64)
    ensures
        cost == cost_of(spans@, spans@.len() as int),
{
    let mut cost: F64 = F64::zero();
    let mut next: usize = 0;
    while next < spans.len()
        invariant
            next <= spans.len(),
            cost == cost_of(spans@, next as int),
        decreases spans.len() - next,
    {
        if F32::zero().lt(spans[next].factor) {
            cost = cost.plus(spans[next].cost());
        }
        next = next + 1;
    }
    cost
}

/// The crossings among the first `n` that lie at or before the position.
pub open spec fn passed(toggles: Seq<Toggle>, n: int, x: int) -> int
    decreases n,
{
    if n <= 0 {
        0
    } else if toggles[n - 1].t.value() <= x {
        n
    } else {
        passed(toggles, n - 1, x)
    }
}

/// Every crossing lies inside the corridor.
pub open spec fn within(toggles: Seq<Toggle>, length: F64) -> bool {
    forall|i: int|
        0 <= i < toggles.len() ==> !(#[trigger] toggles[i]).t.is_nan() && 0 <= toggles[i].t.value() < length.value()
}

proof fn lemma_passed(toggles: Seq<Toggle>, length: F64, n: int, x: int)
    requires
        topology::in_toggle_order(toggles),
        within(toggles, length),
        0 <= n <= toggles.len(),
    ensures
        0 <= passed(toggles, n, x) <= n,
        forall|j: int| 0 <= j < passed(toggles, n, x) ==> (#[trigger] toggles[j]).t.value() <= x,
        forall|j: int| passed(toggles, n, x) <= j < n ==> (#[trigger] toggles[j]).t.value() > x,
    decreases n,
{
    if n > 0 {
        if toggles[n - 1].t.value() <= x {
            assert forall|j: int| 0 <= j < n implies (#[trigger] toggles[j]).t.value() <= x by {
                if j < n - 1 {
                    toggles[j].t.lemma_rank(toggles[n - 1].t);
                    assert(topology::toggle_leq(toggles[j], toggles[n - 1]));
                }
            }
        } else {
            lemma_passed(toggles, length, n - 1, x);
        }
    }
}

/// A stretch of the shell's presence holds the position.
pub open spec fn covered(intervals: Seq<Interval>, key: ShellKey, x: int) -> bool {
    exists|a: int|
        0 <= a < intervals.len() && (#[trigger] intervals[a]).key == key && intervals[a].open.value() <= x
            < intervals[a].close.value()
}

/// A stretch of some shell of the volume holds the position.
pub open spec fn volume_covered(intervals: Seq<Interval>, volume: Entity, x: int) -> bool {
    exists|a: int|
        0 <= a < intervals.len() && (#[trigger] intervals[a]).key.volume == volume && intervals[a].open.value() <= x
            < intervals[a].close.value()
}

/// The largest factor among the first `n` rows whose volume is present at the position.
pub open spec fn union_of(rows: Seq<(Entity, F32)>, intervals: Seq<Interval>, x: int, n: int) -> F32
    decreases n,
{
    if n <= 0 {
        F32::zero()
    } else {
        let rest = union_of(rows, intervals, x, n - 1);
        if volume_covered(intervals, rows[n - 1].0, x) {
            rest.larger(rows[n - 1].1)
        } else {
            rest
        }
    }
}

/// The union field at a position: the largest factor of any volume present there.
pub open spec fn union_factor(rows: Seq<(Entity, F32)>, intervals: Seq<Interval>, x: int) -> F32 {
    union_of(rows, intervals, x, rows.len() as int)
}

/// The position is held by a stretch that is closed, or by one still open.
spec fn present_by(toggles: Seq<Toggle>, seeds: Seq<ShellKey>, i: int, key: ShellKey, x: int) -> bool {
    covered(field::closed_by(toggles, i), key, x) || (field::is_open(
        toggles,
        seeds,
        i,
        key,
    ) && field::opened_at(toggles, i, key).value() <= x)
}

proof fn lemma_behind(toggles: Seq<Toggle>, length: F64, i: int, key: ShellKey, x: int)
    requires
        within(toggles, length),
        0 <= i <= toggles.len(),
        0 <= x,
        forall|j: int| 0 <= j < i ==> (#[trigger] toggles[j]).t.value() <= x,
    ensures
        !covered(field::closed_by(toggles, i), key, x),
        field::opened_at(toggles, i, key).value() <= x,
    decreases i,
{
    F64::zero().lemma_nonnegative();
    if i > 0 {
        lemma_behind(toggles, length, i - 1, key, x);
        let shorter = field::closed_by(toggles, i - 1);
        let longer = field::closed_by(toggles, i);
        if covered(longer, key, x) {
            let a = choose|a: int|
                0 <= a < longer.len() && (#[trigger] longer[a]).key == key && longer[a].open.value() <= x
                    < longer[a].close.value();
            if a < shorter.len() {
                assert(longer[a] == shorter[a]);
            } else {
                assert(longer[a].close == toggles[i - 1].t);
            }
        }
    }
}

proof fn lemma_ahead(
    toggles: Seq<Toggle>,
    seeds: Seq<ShellKey>,
    factors: Map<Entity, F32>,
    length: F64,
    p: int,
    i: int,
    key: ShellKey,
    x: int,
)
    requires
        within(toggles, length),
        0 <= p <= i <= toggles.len(),
        0 <= x,
        field::sound(toggles, seeds, factors, toggles.len() as int),
        forall|j: int| 0 <= j < p ==> (#[trigger] toggles[j]).t.value() <= x,
        forall|j: int| p <= j < toggles.len() ==> (#[trigger] toggles[j]).t.value() > x,
    ensures
        present_by(toggles, seeds, i, key, x) == field::is_open(toggles, seeds, p, key),
    decreases i - p,
{
    if i == p {
        lemma_behind(toggles, length, i, key, x);
    } else {
        lemma_ahead(toggles, seeds, factors, length, p, i - 1, key, x);
        let toggle = toggles[i - 1];
        assert(field::fault_at(toggles, seeds, factors, i - 1) is None);
        let shorter = field::closed_by(toggles, i - 1);
        let longer = field::closed_by(toggles, i);
        if covered(shorter, key, x) {
            let a = choose|a: int|
                0 <= a < shorter.len() && (#[trigger] shorter[a]).key == key && shorter[a].open.value() <= x
                    < shorter[a].close.value();
            assert(longer[a] == shorter[a]);
        }
        if covered(longer, key, x) && !covered(shorter, key, x) {
            let a = choose|a: int|
                0 <= a < longer.len() && (#[trigger] longer[a]).key == key && longer[a].open.value() <= x
                    < longer[a].close.value();
            if a < shorter.len() {
                assert(longer[a] == shorter[a]);
            }
        }
        if toggle.key == key && !toggle.enters {
            assert(longer[shorter.len() as int].key == key);
        }
    }
}

/// A shell is open where one of its closed stretches holds the position.
proof fn lemma_open_is_covered(
    toggles: Seq<Toggle>,
    seeds: Seq<ShellKey>,
    factors: Map<Entity, F32>,
    length: F64,
    key: ShellKey,
    x: int,
)
    requires
        topology::in_toggle_order(toggles),
        within(toggles, length),
        field::sound(toggles, seeds, factors, toggles.len() as int),
        field::all_closed(toggles, seeds),
        0 <= x,
    ensures
        field::is_open(toggles, seeds, passed(toggles, toggles.len() as int, x), key) == covered(
            field::closed_by(toggles, toggles.len() as int),
            key,
            x,
        ),
{
    let n = toggles.len() as int;
    lemma_passed(toggles, length, n, x);
    lemma_ahead(toggles, seeds, factors, length, passed(toggles, n, x), n, key, x);
    assert(!field::is_open(toggles, seeds, n, key));
}

/// The field read after the crossings passed is the union field.
proof fn lemma_peak_is_union(
    rows: Seq<(Entity, F32)>,
    toggles: Seq<Toggle>,
    seeds: Seq<ShellKey>,
    factors: Map<Entity, F32>,
    length: F64,
    x: int,
    n: int,
)
    requires
        topology::in_toggle_order(toggles),
        within(toggles, length),
        field::sound(toggles, seeds, factors, toggles.len() as int),
        field::all_closed(toggles, seeds),
        0 <= x,
        0 <= n <= rows.len(),
    ensures
        field::peak_of(
            rows,
            toggles,
            seeds,
            passed(toggles, toggles.len() as int, x),
            n,
        ) == union_of(rows, field::closed_by(toggles, toggles.len() as int), x, n),
    decreases n,
{
    if n > 0 {
        lemma_peak_is_union(rows, toggles, seeds, factors, length, x, n - 1);
        let p = passed(toggles, toggles.len() as int, x);
        let intervals = field::closed_by(toggles, toggles.len() as int);
        let volume = rows[n - 1].0;
        if field::volume_open(toggles, seeds, p, volume) {
            let key = choose|key: ShellKey|
                key.volume == volume && #[trigger] field::is_open(toggles, seeds, p, key);
            lemma_open_is_covered(toggles, seeds, factors, length, key, x);
            let a = choose|a: int|
                0 <= a < intervals.len() && (#[trigger] intervals[a]).key == key && intervals[a].open.value() <= x
                    < intervals[a].close.value();
            assert(intervals[a].key.volume == volume);
        }
        if volume_covered(intervals, volume, x) {
            let a = choose|a: int|
                0 <= a < intervals.len() && (#[trigger] intervals[a]).key.volume == volume && intervals[a].open.value()
                    <= x < intervals[a].close.value();
            lemma_open_is_covered(toggles, seeds, factors, length, intervals[a].key, x);
            assert(field::is_open(toggles, seeds, p, intervals[a].key));
        }
    }
}

/// The spans lie end to end from one position to the other.
pub open spec fn tiles(spans: Seq<Span>, from: int, to: int) -> bool {
    &&& forall|i: int| 0 <= i < spans.len() ==> (#[trigger] spans[i]).start.below(spans[i].end)
    &&& forall|i: int| 0 <= i < spans.len() - 1 ==> (#[trigger] spans[i]).end == spans[i + 1].start
    &&& if spans.len() == 0 {
        from == to
    } else {
        spans[0].start.value() == from && spans.last().end.value() == to
    }
}

/// No two neighbours carry one factor.
pub open spec fn stepping(spans: Seq<Span>) -> bool {
    forall|i: int| 0 <= i < spans.len() - 1 ==> (#[trigger] spans[i]).factor != spans[i + 1].factor
}

/// Each span carries the union field at every position it holds.
pub open spec fn charts(spans: Seq<Span>, rows: Seq<(Entity, F32)>, intervals: Seq<Interval>) -> bool {
    forall|i: int, x: int|
        0 <= i < spans.len() && #[trigger] spans[i].holds(x) ==> spans[i].factor == union_factor(rows, intervals, x)
}

proof fn lemma_cut(
    rows: Seq<(Entity, F32)>,
    toggles: Seq<Toggle>,
    seeds: Seq<ShellKey>,
    factors: Map<Entity, F32>,
    length: F64,
    i: int,
    cursor: F64,
    factor: F32,
)
    requires
        topology::in_toggle_order(toggles),
        within(toggles, length),
        field::sound(toggles, seeds, factors, toggles.len() as int),
        field::all_closed(toggles, seeds),
        0 <= i <= toggles.len(),
        i > 0 && i < toggles.len() ==> toggles[i - 1].t != toggles[i].t,
        !length.is_nan(),
        !cursor.is_nan(),
        0 <= cursor.value(),
        cursor.value() <= (if i < toggles.len() { toggles[i].t.value() } else { length.value() }),
        factor == field::peak(rows, toggles, seeds, i),
        forall|x: int|
            cursor.value() <= x < (if i < toggles.len() { toggles[i].t.value() } else { length.value() }) ==> factor
                == #[trigger] union_factor(
                rows,
                field::closed_by(toggles, toggles.len() as int),
                x,
            ),
    ensures
        ({
            let spans = spans_from(
                field::transitions_from(rows, toggles, seeds, i),
                cursor,
                factor,
                length,
            );
            &&& tiles(spans, cursor.value(), length.value())
            &&& stepping(spans)
            &&& charts(spans, rows, field::closed_by(toggles, toggles.len() as int))
            &&& spans.len() > 0 ==> spans[0].start == cursor
            &&& spans.len() > 0 && (i == toggles.len() || cursor.value() < toggles[i].t.value()) ==> spans[0].factor
                == factor
        }),
    decreases toggles.len() - i,
{
    let intervals = field::closed_by(toggles, toggles.len() as int);
    let steps = field::transitions_from(rows, toggles, seeds, i);
    let spans = spans_from(steps, cursor, factor, length);
    if i < toggles.len() {
        field::lemma_batch_end(toggles, i);
        let j = field::batch_end(toggles, i);
        let t = toggles[i].t;
        let after = field::peak(rows, toggles, seeds, j);
        let bound = if j < toggles.len() { toggles[j].t.value() } else { length.value() };
        if j < toggles.len() {
            assert(topology::toggle_leq(toggles[j - 1], toggles[j]));
            assert(toggles[j - 1].t == t);
            t.lemma_rank(toggles[j].t);
            if t.value() == toggles[j].t.value() && t.value() != 0 {
                t.lemma_same_bits(toggles[j].t);
            }
        }
        assert forall|x: int| t.value() <= x < bound implies after == #[trigger] union_factor(rows, intervals, x) by {
            lemma_passed(toggles, length, toggles.len() as int, x);
            let p = passed(toggles, toggles.len() as int, x);
            assert(toggles[j - 1].t.value() <= x);
            if p < j {
                assert(toggles[j - 1].t.value() > x);
            }
            if p > j {
                assert(toggles[j].t.value() <= x);
            }
            lemma_peak_is_union(rows, toggles, seeds, factors, length, x, rows.len() as int);
        }
        let rest = field::transitions_from(rows, toggles, seeds, j);
        if factor == after {
            assert(steps == rest);
            assert forall|x: int| cursor.value() <= x < bound implies factor == #[trigger] union_factor(
                rows,
                intervals,
                x,
            ) by {
                if x >= t.value() {
                    assert(after == union_factor(rows, intervals, x));
                }
            }
            lemma_cut(rows, toggles, seeds, factors, length, j, cursor, factor);
        } else {
            assert(steps.drop_first() =~= rest);
            assert(steps[0].t == t && steps[0].after == after);
            if cursor.below(t) {
                lemma_cut(rows, toggles, seeds, factors, length, j, t, after);
                let tail = spans_from(rest, t, after, length);
                assert(spans =~= seq![Span { start: cursor, end: t, factor }] + tail);
                assert forall|k: int| 0 <= k < spans.len() - 1 implies (#[trigger] spans[k]).end == spans[k + 1].start
                    && spans[k].factor != spans[k + 1].factor by {
                    assert(spans[k + 1] == tail[k]);
                    if k > 0 {
                        assert(spans[k] == tail[k - 1]);
                    }
                }
                assert forall|k: int| 0 <= k < spans.len() implies (#[trigger] spans[k]).start.below(spans[k].end) by {
                    if k > 0 {
                        assert(spans[k] == tail[k - 1]);
                    }
                }
                if tail.len() > 0 {
                    assert(spans.last() == tail.last());
                }
                assert forall|k: int, x: int|
                    0 <= k < spans.len() && #[trigger] spans[k].holds(x) implies spans[k].factor == union_factor(
                    rows,
                    intervals,
                    x,
                ) by {
                    if k > 0 {
                        assert(spans[k] == tail[k - 1]);
                        assert(tail[k - 1].holds(x));
                    }
                }
            } else {
                lemma_cut(rows, toggles, seeds, factors, length, j, cursor, after);
            }
        }
    } else {
        assert(steps =~= Seq::empty());
    }
}

/// The spans are the canonical chart of the union field: end to end over the
/// corridor, a new one exactly where the field changes, each with the field's value.
pub proof fn lemma_canonical(
    rows: Seq<(Entity, F32)>,
    toggles: Seq<Toggle>,
    seeds: Seq<ShellKey>,
    factors: Map<Entity, F32>,
    length: F64,
)
    requires
        topology::in_toggle_order(toggles),
        within(toggles, length),
        field::sound(toggles, seeds, factors, toggles.len() as int),
        field::all_closed(toggles, seeds),
        !length.is_nan(),
        0 <= length.value(),
    ensures
        ({
            let spans = spans_from(
                field::transitions_from(rows, toggles, seeds, 0),
                F64::zero(),
                field::peak(rows, toggles, seeds, 0),
                length,
            );
            &&& tiles(spans, 0, length.value())
            &&& stepping(spans)
            &&& charts(spans, rows, field::closed_by(toggles, toggles.len() as int))
            &&& spans.len() > 0 ==> spans[0].start == F64::zero()
        }),
{
    F64::zero().lemma_nonnegative();
    let factor = field::peak(rows, toggles, seeds, 0);
    let bound = if 0 < toggles.len() { toggles[0].t.value() } else { length.value() };
    assert forall|x: int| 0 <= x < bound implies factor == #[trigger] union_factor(
        rows,
        field::closed_by(toggles, toggles.len() as int),
        x,
    ) by {
        lemma_passed(toggles, length, toggles.len() as int, x);
        if passed(toggles, toggles.len() as int, x) > 0 {
            assert(toggles[0].t.value() <= x);
        }
        lemma_peak_is_union(rows, toggles, seeds, factors, length, x, rows.len() as int);
    }
    lemma_cut(rows, toggles, seeds, factors, length, 0, F64::zero(), factor);
}

} // verus!
