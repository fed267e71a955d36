//! Runs of material, welded across micro-gaps.
//!
//! A weld deletes the two phantom faces of a gap, never the gap's air: what is
//! charged is the material alone.

use crate::ballistics::walk::field::{Interval, Transition};
use crate::ballistics::walk::spans::Span;
use crate::ballistics::walk::vocabulary::{Entity, PrimitiveKey, WalkLaws};
use crate::float::{F32, F64};
use crate::vector::{unit_or_zero, Vec3};
use vstd::prelude::*;

verus! {

/// One constant-factor stretch of material inside a welded run.
#[derive(Clone, Copy, Debug, PartialEq, Eq, Structural)]
pub struct MaterialSegment {
    /// The outer extent; it may straddle a deleted gap.
    pub start: F64,
    pub end: F64,
    pub factor: F32,
    /// The metres charged.
    pub material: F64,
    pub cost: F32,
}

/// A contiguous crossing after welding: one entrance, one exit, and the material between.
#[derive(Clone, Debug, PartialEq)]
pub struct WeldedRun {
    pub start: F64,
    pub end: F64,
    pub cost: F32,
    /// The outward normal of the outermost entry face.
    pub entry_normal: Vec3,
    /// The outward normal of the innermost exit face.
    pub exit_normal: Vec3,
    pub segments: Vec<MaterialSegment>,
    /// The volume whose shell opens the run; the lowest where several do.
    pub entry_volume: Entity,
    /// The gaps swallowed.
    pub joints: u32,
    /// Every primitive present in the run, in order.
    pub primitives: Vec<PrimitiveKey>,
}

/// Where the run of material that holds span `i` ends.
pub open spec fn run_end(spans: Seq<Span>, i: int) -> int
    decreases spans.len() - i,
{
    if 0 <= i < spans.len() && spans[i].is_material() {
        run_end(spans, i + 1)
    } else {
        i
    }
}

pub proof fn lemma_run_end(spans: Seq<Span>, i: int)
    requires
        0 <= i <= spans.len(),
    ensures
        i <= run_end(spans, i) <= spans.len(),
        forall|x: int| i <= x < run_end(spans, i) ==> (#[trigger] spans[x]).is_material(),
        run_end(spans, i) < spans.len() ==> !spans[run_end(spans, i)].is_material(),
        i < spans.len() && spans[i].is_material() ==> i < run_end(spans, i),
    decreases spans.len() - i,
{
    if i < spans.len() && spans[i].is_material() {
        lemma_run_end(spans, i + 1);
    }
}

/// The maximal runs of material among `spans[i..]`, as ranges of places.
pub open spec fn runs_from(spans: Seq<Span>, i: int) -> Seq<(usize, usize)>
    decreases spans.len() - i,
    when 0 <= i
    via runs_decrease
{
    if i >= spans.len() {
        Seq::empty()
    } else if spans[i].is_material() {
        seq![(i as usize, run_end(spans, i) as usize)] + runs_from(spans, run_end(spans, i))
    } else {
        runs_from(spans, i + 1)
    }
}

#[via_fn]
proof fn runs_decrease(spans: Seq<Span>, i: int) {
    if 0 <= i < spans.len() {
        lemma_run_end(spans, i);
    }
}

/// The runs as places: each nonempty, apart, in order, all material.
pub open spec fn runs_fit(spans: Seq<Span>, runs: Seq<(usize, usize)>) -> bool {
    &&& forall|r: int| 0 <= r < runs.len() ==> (#[trigger] runs[r]).0 < runs[r].1 <= spans.len()
    &&& forall|r: int, q: int| 0 <= r < q < runs.len() ==> (#[trigger] runs[r]).1 < (#[trigger] runs[q]).0
}

pub proof fn lemma_runs_fit(spans: Seq<Span>, i: int)
    requires
        0 <= i <= spans.len(),
        spans.len() <= usize::MAX,
    ensures
        runs_fit(spans, runs_from(spans, i)),
        forall|r: int| 0 <= r < runs_from(spans, i).len() ==> i <= (#[trigger] runs_from(spans, i)[r]).0,
        i < spans.len() && !spans[i].is_material() ==> forall|r: int|
            0 <= r < runs_from(spans, i).len() ==> i < (#[trigger] runs_from(spans, i)[r]).0,
    decreases spans.len() - i,
{
    if i < spans.len() {
        if spans[i].is_material() {
            lemma_run_end(spans, i);
            let j = run_end(spans, i);
            lemma_runs_fit(spans, j);
            let rest = runs_from(spans, j);
            let all = runs_from(spans, i);
            assert(all =~= seq![(i as usize, j as usize)] + rest);
            assert forall|r: int| 0 <= r < all.len() implies (#[trigger] all[r]).0 < all[r].1 <= spans.len() && i <= all[r].0 by {
                if r > 0 {
                    assert(all[r] == rest[r - 1]);
                }
            }
            assert forall|r: int, q: int| 0 <= r < q < all.len() implies (#[trigger] all[r]).1 < (#[trigger] all[q]).0 by {
                assert(all[q] == rest[q - 1]);
                if r > 0 {
                    assert(all[r] == rest[r - 1]);
                }
            }
        } else {
            lemma_runs_fit(spans, i + 1);
        }
    }
}

/// The maximal runs of material.
pub fn find_runs(spans: &Vec<Span>) -> (runs: Vec<(usize, usize)>)
    ensures
        runs@ == runs_from(spans@, 0),
        runs_fit(spans@, runs@),
{
    let mut runs: Vec<(usize, usize)> = Vec::new();
    let mut i: usize = 0;
    let ghost all = runs_from(spans@, 0);
    assert(runs@ + all =~= all);
    while i < spans.len()
        invariant
            i <= spans.len(),
            runs@ + runs_from(spans@, i as int) == all,
        decreases spans.len() - i,
    {
        if F32::zero().lt(spans[i].factor) {
            let start: usize = i;
            let ghost stop = run_end(spans@, start as int);
            proof {
                lemma_run_end(spans@, start as int);
            }
            while i < spans.len() && F32::zero().lt(spans[i].factor)
                invariant
                    start <= i <= stop <= spans.len(),
                    start < stop,
                    forall|x: int| start <= x < stop ==> (#[trigger] spans@[x]).is_material(),
                    stop < spans.len() ==> !spans@[stop].is_material(),
                ensures
                    i == stop,
                decreases spans.len() - i,
            {
                i = i + 1;
            }
            let ghost before = runs@;
            runs.push((start, i));
            assert(runs@ + runs_from(spans@, stop) =~= before + runs_from(spans@, start as int));
        } else {
            i = i + 1;
        }
    }
    proof {
        assert(runs@ + runs_from(spans@, i as int) =~= runs@);
        lemma_runs_fit(spans@, 0);
    }
    runs
}

/// The normal carried by the first change at this distance that has one.
pub open spec fn carried_normal(transitions: Seq<Transition>, t: F64, entry: bool) -> Option<Vec3>
    decreases transitions.len(),
{
    if transitions.len() == 0 {
        None
    } else {
        let carried = if entry {
            transitions[0].entry_normal
        } else {
            transitions[0].exit_normal
        };
        if transitions[0].t.equals(t) && carried is Some {
            carried
        } else {
            carried_normal(transitions.drop_first(), t, entry)
        }
    }
}

/// The outward normal of the boundary at this distance. A run that opens at the
/// origin has no entry face: the axis stands in.
pub open spec fn boundary_normal(transitions: Seq<Transition>, axis: Vec3, t: F64, entry: bool) -> Vec3 {
    match carried_normal(transitions, t, entry) {
        Some(normal) => normal.direction(),
        None => if entry {
            axis.negation()
        } else {
            axis
        },
    }
}

pub fn normal_at(transitions: &Vec<Transition>, axis: Vec3, t: F64, entry: bool) -> (normal: Vec3)
    ensures
        normal == boundary_normal(transitions@, axis, t, entry),
{
    let mut i: usize = 0;
    assert(transitions@.skip(0) =~= transitions@);
    while i < transitions.len()
        invariant
            i <= transitions.len(),
            carried_normal(transitions@.skip(i as int), t, entry) == carried_normal(transitions@, t, entry),
        decreases transitions.len() - i,
    {
        let carried: Option<Vec3> = if entry { transitions[i].entry_normal } else { transitions[i].exit_normal };
        assert(transitions@.skip(i as int).drop_first() =~= transitions@.skip(i + 1));
        assert(transitions@.skip(i as int)[0] == transitions@[i as int]);
        if transitions[i].t.same(t) {
            match carried {
                Some(sum) => {
                    return unit_or_zero(sum);
                },
                None => {},
            }
        }
        i = i + 1;
    }
    if entry {
        axis.negated()
    } else {
        axis
    }
}

/// What welding reads.
pub struct Scene {
    pub spans: Seq<Span>,
    pub runs: Seq<(usize, usize)>,
    pub transitions: Seq<Transition>,
    pub axis: Vec3,
    pub laws: WalkLaws,
}

impl Scene {
    /// Where run `r` ends.
    pub open spec fn end_of(self, r: int) -> F64 {
        self.spans[self.runs[r].1 - 1].end
    }

    /// Where run `r` starts.
    pub open spec fn start_of(self, r: int) -> F64 {
        self.spans[self.runs[r].0 as int].start
    }

    /// The gap behind run `r`, along the ray.
    pub open spec fn gap_along(self, r: int) -> F64 {
        self.start_of(r + 1).difference(self.end_of(r))
    }

    pub open spec fn exit_normal(self, r: int) -> Vec3 {
        boundary_normal(self.transitions, self.axis, self.end_of(r), false)
    }

    pub open spec fn entry_normal(self, r: int) -> Vec3 {
        boundary_normal(self.transitions, self.axis, self.start_of(r), true)
    }

    /// The gap behind run `r`, across its faces; the face that shows more of it counts.
    pub open spec fn gap_across(self, r: int) -> F64 {
        let projection = self.axis.inner(self.exit_normal(r)).absolute().larger(
            self.axis.inner(self.entry_normal(r + 1)).absolute(),
        );
        self.gap_along(r).product(projection.doubled())
    }

    /// Run `r` welds to the next one, `spent` of the gap budget being gone: the two
    /// faces oppose each other, and the gap is short along the ray, thin across it,
    /// and within what the budget leaves.
    pub open spec fn welds(self, r: int, spent: F64) -> bool {
        &&& self.exit_normal(r).inner(self.entry_normal(r + 1)).at_most(self.laws.weld_face_cos.negation())
        &&& self.gap_along(r).at_most(self.laws.weld_max_lookahead.doubled())
        &&& self.gap_across(r).at_most(self.laws.weld_perp.doubled())
        &&& spent.sum(self.gap_across(r)).at_most(self.laws.weld_run_gap_budget.doubled())
    }

    /// The welded groups of runs, as ranges of runs; `first` opened the current group
    /// and the current run is `r`.
    pub open spec fn groups_from(self, r: int, first: int, spent: F64) -> Seq<(int, int)>
        decreases self.runs.len() - r,
    {
        if r >= self.runs.len() {
            Seq::empty()
        } else if r + 1 == self.runs.len() {
            seq![(first, r)]
        } else if self.welds(r, spent) {
            self.groups_from(r + 1, first, spent.sum(self.gap_across(r)))
        } else {
            seq![(first, r)] + self.groups_from(r + 1, r + 1, F64::zero())
        }
    }

    /// The welded groups of runs.
    pub open spec fn groups(self) -> Seq<(int, int)> {
        self.groups_from(0, 0, F64::zero())
    }
}

/// One more span in a segment list: it lengthens the last segment where the
/// factor is the same, and starts a new one where it is not.
pub open spec fn with_span(segments: Seq<MaterialSegment>, span: Span) -> Seq<MaterialSegment> {
    if segments.len() > 0 && segments.last().factor == span.factor {
        let last = segments.last();
        segments.drop_last().push(
            MaterialSegment {
                start: last.start,
                end: span.end,
                factor: last.factor,
                material: last.material.sum(span.spec_len()),
                cost: last.cost.doubled().sum(span.spec_cost()).halved(),
            },
        )
    } else {
        segments.push(
            MaterialSegment {
                start: span.start,
                end: span.end,
                factor: span.factor,
                material: span.spec_len(),
                cost: span.spec_cost().halved(),
            },
        )
    }
}

/// The segments that the material among `spans[a..n]` makes up.
pub open spec fn segments_of(spans: Seq<Span>, a: int, n: int) -> Seq<MaterialSegment>
    decreases n - a,
{
    if n <= a {
        Seq::empty()
    } else if spans[n - 1].is_material() {
        with_span(segments_of(spans, a, n - 1), spans[n - 1])
    } else {
        segments_of(spans, a, n - 1)
    }
}

/// The cost of the material among `spans[a..n]`, accumulated in order.
pub open spec fn cost_between(spans: Seq<Span>, a: int, n: int) -> F64
    decreases n - a,
{
    if n <= a {
        F64::zero()
    } else if spans[n - 1].is_material() {
        cost_between(spans, a, n - 1).sum(spans[n - 1].spec_cost())
    } else {
        cost_between(spans, a, n - 1)
    }
}

/// Primitive keys, each once, in order.
pub open spec fn in_primitive_order(keys: Seq<PrimitiveKey>) -> bool {
    forall|i: int, j: int| 0 <= i < j < keys.len() ==> primitive_less(#[trigger] keys[i], #[trigger] keys[j])
}

pub open spec fn primitive_less(a: PrimitiveKey, b: PrimitiveKey) -> bool {
    a.volume.id < b.volume.id || (a.volume.id == b.volume.id && a.primitive.id < b.primitive.id)
}

/// Adds a key to an ordered list, if it is not there.
pub fn insert_primitive(keys: &mut Vec<PrimitiveKey>, key: PrimitiveKey)
    requires
        in_primitive_order(old(keys)@),
    ensures
        in_primitive_order(final(keys)@),
        forall|k: PrimitiveKey| #[trigger] final(keys)@.contains(k) <==> old(keys)@.contains(k) || k == key,
{
    let ghost before = keys@;
    let mut place: usize = 0;
    while place < keys.len() && (keys[place].volume.id < key.volume.id || (keys[place].volume.id == key.volume.id
        && keys[place].primitive.id < key.primitive.id))
        invariant
            place <= keys.len(),
            keys@ == before,
            forall|i: int| 0 <= i < place ==> primitive_less(#[trigger] before[i], key),
        decreases keys.len() - place,
    {
        place = place + 1;
    }
    if place < keys.len() && keys[place] == key {
        assert(before[place as int] == key);
        return ;
    }
    keys.insert(place, key);
    proof {
        let after = keys@;
        assert(after =~= before.insert(place as int, key));
        assert forall|i: int, j: int| 0 <= i < j < after.len() implies primitive_less(#[trigger] after[i], #[trigger] after[j]) by {
            if j == place {
                assert(after[i] == before[i]);
            } else if i == place {
                assert(after[j] == before[j - 1]);
                if j - 1 > place {
                    assert(primitive_less(before[place as int], before[j - 1]));
                }
            } else {
                let x = if i < place { i } else { i - 1 };
                let y = if j < place { j } else { j - 1 };
                assert(after[i] == before[x] && after[j] == before[y]);
            }
        }
        assert forall|k: PrimitiveKey| #[trigger] after.contains(k) <==> before.contains(k) || k == key by {
            if before.contains(k) {
                let x = choose|x: int| 0 <= x < before.len() && before[x] == k;
                let y = if x < place { x } else { x + 1 };
                assert(after[y] == k);
            }
            assert(after[place as int] == key);
            if after.contains(k) && k != key {
                let y = choose|y: int| 0 <= y < after.len() && after[y] == k;
                let x = if y < place { y } else { y - 1 };
                assert(before[x] == k);
            }
        }
    }
}

/// The primitive is present somewhere between the two distances.
pub open spec fn primitive_between(intervals: Seq<Interval>, key: PrimitiveKey, start: F64, end: F64) -> bool {
    exists|a: int|
        0 <= a < intervals.len() && (#[trigger] intervals[a]).key.spec_primitive_key() == key && start.below(
            intervals[a].close,
        ) && intervals[a].open.below(end)
}

/// Some shell of the volume opens at the distance.
pub open spec fn opens_at(intervals: Seq<Interval>, volume: Entity, start: F64) -> bool {
    exists|a: int|
        0 <= a < intervals.len() && (#[trigger] intervals[a]).key.volume == volume && intervals[a].open.equals(start)
}

/// The volume behind a run's entrance: the lowest that opens where it starts, or
/// else the run's first primitive's.
pub open spec fn is_entry_volume(
    volume: Entity,
    intervals: Seq<Interval>,
    start: F64,
    primitives: Seq<PrimitiveKey>,
) -> bool {
    if exists|v: Entity| #[trigger] opens_at(intervals, v, start) {
        opens_at(intervals, volume, start) && forall|v: Entity| #[trigger]
            opens_at(intervals, v, start) ==> volume.id <= v.id
    } else if primitives.len() > 0 {
        volume == primitives[0].volume
    } else {
        volume == Entity::placeholder()
    }
}

/// The welded run that a group of runs makes up.
pub open spec fn is_welded(run: WeldedRun, scene: Scene, intervals: Seq<Interval>, group: (int, int)) -> bool {
    let a = scene.runs[group.0].0 as int;
    let b = scene.runs[group.1].1 as int;
    &&& run.start == scene.start_of(group.0)
    &&& run.end == scene.end_of(group.1)
    &&& run.cost == cost_between(scene.spans, a, b).halved()
    &&& run.segments@ == segments_of(scene.spans, a, b)
    &&& run.entry_normal == scene.entry_normal(group.0)
    &&& run.exit_normal == scene.exit_normal(group.1)
    &&& run.joints == (group.1 - group.0) as u32
    &&& in_primitive_order(run.primitives@)
    &&& forall|key: PrimitiveKey| #[trigger]
        run.primitives@.contains(key) <==> primitive_between(intervals, key, run.start, run.end)
    &&& is_entry_volume(run.entry_volume, intervals, run.start, run.primitives@)
}

fn entry_volume_of(intervals: &Vec<Interval>, start: F64, primitives: &Vec<PrimitiveKey>) -> (volume: Entity)
    ensures
        is_entry_volume(volume, intervals@, start, primitives@),
{
    let mut best: Option<Entity> = None;
    let mut i: usize = 0;
    while i < intervals.len()
        invariant
            i <= intervals.len(),
            match best {
                Some(volume) => opens_at(intervals@, volume, start) && forall|a: int|
                    0 <= a < i && (#[trigger] intervals@[a]).open.equals(start) ==> volume.id
                        <= intervals@[a].key.volume.id,
                None => forall|a: int| 0 <= a < i ==> !(#[trigger] intervals@[a]).open.equals(start),
            },
        decreases intervals.len() - i,
    {
        if intervals[i].open.same(start) {
            let volume: Entity = intervals[i].key.volume;
            assert(intervals@[i as int].key.volume == volume);
            assert(opens_at(intervals@, volume, start));
            best = match best {
                Some(low) => if volume.id < low.id {
                    Some(volume)
                } else {
                    Some(low)
                },
                None => Some(volume),
            };
        }
        i = i + 1;
    }
    match best {
        Some(volume) => {
            proof {
                assert forall|v: Entity| #[trigger] opens_at(intervals@, v, start) implies volume.id <= v.id by {
                    let a = choose|a: int|
                        0 <= a < intervals@.len() && (#[trigger] intervals@[a]).key.volume == v && intervals@[a].open.equals(
                            start,
                        );
                    assert(intervals@[a].open.equals(start));
                }
            }
            volume
        },
        None => {
            proof {
                assert forall|v: Entity| !#[trigger] opens_at(intervals@, v, start) by {
                    if opens_at(intervals@, v, start) {
                        let a = choose|a: int|
                            0 <= a < intervals@.len() && (#[trigger] intervals@[a]).key.volume == v
                                && intervals@[a].open.equals(start);
                        assert(!intervals@[a].open.equals(start));
                    }
                }
            }
            if primitives.len() > 0 {
                primitives[0].volume
            } else {
                Entity::placeholder()
            }
        },
    }
}

fn primitives_of(intervals: &Vec<Interval>, start: F64, end: F64) -> (keys: Vec<PrimitiveKey>)
    ensures
        in_primitive_order(keys@),
        forall|key: PrimitiveKey| #[trigger] keys@.contains(key) <==> primitive_between(intervals@, key, start, end),
{
    let mut keys: Vec<PrimitiveKey> = Vec::new();
    let mut i: usize = 0;
    assert(forall|key: PrimitiveKey| !primitive_between(intervals@.take(0), key, start, end));
    while i < intervals.len()
        invariant
            i <= intervals.len(),
            in_primitive_order(keys@),
            forall|key: PrimitiveKey| #[trigger]
                keys@.contains(key) <==> primitive_between(intervals@.take(i as int), key, start, end),
        decreases intervals.len() - i,
    {
        let ghost before = keys@;
        let interval: Interval = intervals[i];
        let inside: bool = start.lt(interval.close) && interval.open.lt(end);
        if inside {
            insert_primitive(&mut keys, interval.key.primitive_key());
        }
        proof {
            let shorter = intervals@.take(i as int);
            let longer = intervals@.take(i + 1);
            assert forall|key: PrimitiveKey| #[trigger] keys@.contains(key) <==> primitive_between(longer, key, start, end) by {
                assert(before.contains(key) <==> primitive_between(shorter, key, start, end));
                if primitive_between(shorter, key, start, end) {
                    let a = choose|a: int|
                        0 <= a < shorter.len() && (#[trigger] shorter[a]).key.spec_primitive_key() == key && start.below(
                            shorter[a].close,
                        ) && shorter[a].open.below(end);
                    assert(longer[a] == shorter[a]);
                }
                if inside && key == interval.key.spec_primitive_key() {
                    assert(longer[i as int] == interval);
                }
                if primitive_between(longer, key, start, end) {
                    let a = choose|a: int|
                        0 <= a < longer.len() && (#[trigger] longer[a]).key.spec_primitive_key() == key && start.below(
                            longer[a].close,
                        ) && longer[a].open.below(end);
                    if a < i {
                        assert(shorter[a] == longer[a]);
                    }
                }
            }
        }
        i = i + 1;
    }
    assert(intervals@.take(i as int) =~= intervals@);
    keys
}

/// The segments and the cost of the material among `spans[a..b]`.
fn fold_material(spans: &Vec<Span>, a: usize, b: usize) -> (folded: (Vec<MaterialSegment>, F64))
    requires
        a <= b <= spans@.len(),
    ensures
        folded.0@ == segments_of(spans@, a as int, b as int),
        folded.1 == cost_between(spans@, a as int, b as int),
{
    let mut segments: Vec<MaterialSegment> = Vec::new();
    let mut cost: F64 = F64::zero();
    let mut i: usize = a;
    while i < b
        invariant
            a <= i <= b <= spans@.len(),
            segments@ == segments_of(spans@, a as int, i as int),
            cost == cost_between(spans@, a as int, i as int),
        decreases b - i,
    {
        let span: Span = spans[i];
        if F32::zero().lt(span.factor) {
            cost = cost.plus(span.cost());
            let ghost before = segments@;
            let count: usize = segments.len();
            if count > 0 && segments[count - 1].factor == span.factor {
                let last: MaterialSegment = segments[count - 1];
                segments.set(
                    count - 1,
                    MaterialSegment {
                        start: last.start,
                        end: span.end,
                        factor: last.factor,
                        material: last.material.plus(span.len()),
                        cost: last.cost.to_double().plus(span.cost()).to_single(),
                    },
                );
                assert(segments@ =~= with_span(before, span));
            } else {
                segments.push(
                    MaterialSegment {
                        start: span.start,
                        end: span.end,
                        factor: span.factor,
                        material: span.len(),
                        cost: span.cost().to_single(),
                    },
                );
                assert(segments@ =~= with_span(before, span));
            }
        }
        i = i + 1;
    }
    (segments, cost)
}

/// Welds the runs and builds each welded run.
pub fn weld_runs(
    axis: Vec3,
    spans: &Vec<Span>,
    runs: &Vec<(usize, usize)>,
    intervals: &Vec<Interval>,
    transitions: &Vec<Transition>,
    laws: &WalkLaws,
) -> (welded: Vec<WeldedRun>)
    requires
        runs_fit(spans@, runs@),
    ensures
        ({
            let scene = Scene { spans: spans@, runs: runs@, transitions: transitions@, axis, laws: *laws };
            &&& welded@.len() == scene.groups().len()
            &&& forall|i: int|
                0 <= i < welded@.len() ==> is_welded(#[trigger] welded@[i], scene, intervals@, scene.groups()[i])
        }),
{
    let ghost scene = Scene { spans: spans@, runs: runs@, transitions: transitions@, axis, laws: *laws };
    let ghost groups = scene.groups();
    let mut welded: Vec<WeldedRun> = Vec::new();
    let mut first: usize = 0;
    let mut spent: F64 = F64::zero();
    let mut r: usize = 0;
    assert(groups.skip(0) =~= groups);
    while r < runs.len()
        invariant
            r <= runs.len(),
            first <= r,
            runs_fit(spans@, runs@),
            scene == (Scene { spans: spans@, runs: runs@, transitions: transitions@, axis, laws: *laws }),
            groups == scene.groups(),
            welded@.len() <= groups.len(),
            groups.skip(welded@.len() as int) == scene.groups_from(r as int, first as int, spent),
            forall|i: int| 0 <= i < welded@.len() ==> is_welded(#[trigger] welded@[i], scene, intervals@, groups[i]),
        decreases runs.len() - r,
    {
        let last: bool = r + 1 == runs.len();
        let mut joined: bool = false;
        if !last {
            assert(runs@[r as int].0 < runs@[r as int].1);
            assert(runs@[r + 1].0 < runs@[r + 1].1);
            let this_end: F64 = spans[runs[r].1 - 1].end;
            let next_start: F64 = spans[runs[r + 1].0].start;
            let gap_along: F64 = next_start.minus(this_end);
            let n_exit: Vec3 = normal_at(transitions, axis, this_end, false);
            let n_entry: Vec3 = normal_at(transitions, axis, next_start, true);
            let projection: F32 = axis.dot(n_exit).abs().max(axis.dot(n_entry).abs());
            let gap_across: F64 = gap_along.times(projection.to_double());
            joined = n_exit.dot(n_entry).le(laws.weld_face_cos.negated()) && gap_along.le(
                laws.weld_max_lookahead.to_double(),
            ) && gap_across.le(laws.weld_perp.to_double()) && spent.plus(gap_across).le(
                laws.weld_run_gap_budget.to_double(),
            );
            assert(joined == scene.welds(r as int, spent));
            if joined {
                spent = spent.plus(gap_across);
            }
        }
        if !joined {
            let ghost group = (first as int, r as int);
            let ghost done = welded@.len();
            proof {
                let rest = groups.skip(done as int);
                let after = if last {
                    Seq::<(int, int)>::empty()
                } else {
                    scene.groups_from(r + 1, r + 1, F64::zero())
                };
                assert(rest =~= seq![group] + after);
                assert(rest.len() == 1 + after.len());
                assert(rest[0] == groups[done as int]);
                assert(groups.skip(done as int + 1) =~= rest.drop_first());
                assert(rest.drop_first() =~= after);
            }
            assert(runs@[first as int].0 < runs@[first as int].1);
            assert(runs@[r as int].0 < runs@[r as int].1);
            let a: usize = runs[first].0;
            let b: usize = runs[r].1;
            let start: F64 = spans[a].start;
            let end: F64 = spans[b - 1].end;
            assert(a <= b) by {
                if first < r {
                    assert(runs@[first as int].1 < runs@[r as int].0);
                }
            }
            let (segments, cost) = fold_material(spans, a, b);
            let primitives: Vec<PrimitiveKey> = primitives_of(intervals, start, end);
            let entry_volume: Entity = entry_volume_of(intervals, start, &primitives);
            welded.push(
                WeldedRun {
                    start,
                    end,
                    cost: cost.to_single(),
                    entry_normal: normal_at(transitions, axis, start, true),
                    exit_normal: normal_at(transitions, axis, end, false),
                    segments,
                    entry_volume,
                    joints: #[verifier::truncate] ((r - first) as u32),
                    primitives,
                },
            );
            first = r + 1;
            spent = F64::zero();
        }
        r = r + 1;
        proof {
            if last {
                assert(scene.groups_from(r as int, first as int, spent) =~= Seq::<(int, int)>::empty());
            }
        }
    }
    assert(groups.skip(welded@.len() as int).len() == 0);
    welded
}

} // verus!
