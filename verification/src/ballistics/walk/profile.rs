//! The disc's mean cost over progress.

use crate::ballistics::walk::disc::{CostProfile, DiscCorridor};
use crate::ballistics::walk::extent;
use crate::ballistics::walk::extent::Touch;
use crate::ballistics::walk::ray::RayWalk;
use crate::ballistics::walk::spans::Span;
use crate::ballistics::walk::weld::WeldedRun;
use crate::float::F64;
use vstd::prelude::*;

verus! {

/// The ends of those among the first `n` spans that meet the run.
pub open spec fn run_marks(spans: Seq<Span>, run: WeldedRun, n: int) -> Seq<F64>
    decreases n,
{
    if n <= 0 {
        Seq::empty()
    } else {
        let rest = run_marks(spans, run, n - 1);
        let span = spans[n - 1];
        if run.start.below(span.end) && span.start.below(run.end) {
            rest.push(span.start).push(span.end)
        } else {
            rest
        }
    }
}

/// The marks of the sample's first `n` runs.
pub open spec fn sample_marks(walk: RayWalk, runs: Seq<usize>, n: int) -> Seq<F64>
    decreases n,
{
    if n <= 0 {
        Seq::empty()
    } else {
        sample_marks(walk, runs, n - 1) + run_marks(walk.spans@, walk.runs@[runs[n - 1] as int], walk.spans@.len() as int)
    }
}

/// The marks of the first `n` samples.
pub open spec fn marks_of(walks: Seq<RayWalk>, touches: Seq<Touch>, n: int) -> Seq<F64>
    decreases n,
{
    if n <= 0 {
        Seq::empty()
    } else {
        marks_of(walks, touches, n - 1) + sample_marks(
            walks[touches[n - 1].sample as int],
            touches[n - 1].runs@,
            touches[n - 1].runs@.len() as int,
        )
    }
}

pub open spec fn in_rank_order(ts: Seq<F64>) -> bool {
    forall|i: int, j: int| 0 <= i < j < ts.len() ==> (#[trigger] ts[i]).rank() <= (#[trigger] ts[j]).rank()
}

/// The first `n` marks, of equal neighbours the first alone.
pub open spec fn distinct(ts: Seq<F64>, n: int) -> Seq<F64>
    decreases n,
{
    if n <= 0 {
        Seq::empty()
    } else {
        let rest = distinct(ts, n - 1);
        if rest.len() > 0 && ts[n - 1].equals(rest.last()) {
            rest
        } else {
            rest.push(ts[n - 1])
        }
    }
}

/// Those of the first `n` marks that lie in the crossing.
pub open spec fn trimmed(ts: Seq<F64>, start: F64, end: F64, n: int) -> Seq<F64>
    decreases n,
{
    if n <= 0 {
        Seq::empty()
    } else {
        let rest = trimmed(ts, start, end, n - 1);
        if start.at_most(ts[n - 1]) && ts[n - 1].at_most(end) {
            rest.push(ts[n - 1])
        } else {
            rest
        }
    }
}

/// The breaks of the profile: every mark and both ends, in order, each once, inside
/// the crossing.
pub open spec fn are_breaks(ts: Seq<F64>, marks: Seq<F64>, start: F64, end: F64) -> bool {
    exists|ordered: Seq<F64>|
        {
            &&& #[trigger] in_rank_order(ordered)
            &&& ordered.to_multiset() == (seq![start, end] + marks).to_multiset()
            &&& ts == trimmed(
                distinct(ordered, ordered.len() as int),
                start,
                end,
                distinct(ordered, ordered.len() as int).len() as int,
            )
        }
}

/// The position lies in one of the sample's runs.
pub open spec fn in_runs(walk: RayWalk, runs: Seq<usize>, mid: F64) -> bool {
    exists|r: int|
        0 <= r < runs.len() && walk.runs@[(#[trigger] runs[r]) as int].start.at_most(mid) && mid.below(
            walk.runs@[runs[r] as int].end,
        )
}

/// The first span from place `i` on that holds the position.
pub open spec fn span_at(spans: Seq<Span>, mid: F64, i: int) -> Option<Span>
    decreases spans.len() - i,
{
    if i >= spans.len() {
        None
    } else if spans[i].start.at_most(mid) && mid.below(spans[i].end) {
        Some(spans[i])
    } else {
        span_at(spans, mid, i + 1)
    }
}

/// The factors that the first `n` samples meet at the position, added in order.
/// The spans carry the field, gaps of a welded run included at no factor.
pub open spec fn slope_at(walks: Seq<RayWalk>, touches: Seq<Touch>, mid: F64, n: int) -> F64
    decreases n,
{
    if n <= 0 {
        F64::zero()
    } else {
        let rest = slope_at(walks, touches, mid, n - 1);
        let touch = touches[n - 1];
        let walk = walks[touch.sample as int];
        if in_runs(walk, touch.runs@, mid) {
            match span_at(walk.spans@, mid, 0) {
                Some(span) => rest.sum(span.factor.doubled()),
                None => rest,
            }
        } else {
            rest
        }
    }
}

/// Halfway between two marks.
pub open spec fn midpoint(a: F64, b: F64) -> F64 {
    (F64 { bits: 0x3fe0_0000_0000_0000 }).product(a.sum(b))
}

/// The mean cost up to mark `n`: each stretch at the mean of its samples' factors.
pub open spec fn cumulative_at(walks: Seq<RayWalk>, touches: Seq<Touch>, ts: Seq<F64>, k: nat, n: int) -> F64
    decreases n,
{
    if n <= 0 {
        F64::zero()
    } else {
        let a = ts[n - 1];
        let b = ts[n];
        let slope = slope_at(walks, touches, midpoint(a, b), touches.len() as int);
        cumulative_at(walks, touches, ts, k, n - 1).sum(b.difference(a).product(slope).quotient(F64::whole(k)))
    }
}

/// The profile of a crossing.
pub open spec fn is_profile(
    profile: CostProfile,
    walks: Seq<RayWalk>,
    touches: Seq<Touch>,
    start: F64,
    end: F64,
    k: nat,
) -> bool {
    let ts = profile.ts@;
    &&& are_breaks(ts, marks_of(walks, touches, touches.len() as int), start, end)
    &&& profile.cumulative@.len() == if ts.len() == 0 {
        1
    } else {
        ts.len()
    }
    &&& forall|i: int|
        0 <= i < profile.cumulative@.len() ==> #[trigger] profile.cumulative@[i] == cumulative_at(
            walks,
            touches,
            ts,
            k,
            i,
        )
}

fn collect_marks(walks: &Vec<RayWalk>, touches: &Vec<Touch>, Ghost(corridor): Ghost<DiscCorridor>) -> (marks: Vec<F64>)
    requires
        extent::touches_fit(touches@, corridor, walks@),
    ensures
        marks@ == marks_of(walks@, touches@, touches@.len() as int),
{
    let mut marks: Vec<F64> = Vec::new();
    let mut i: usize = 0;
    while i < touches.len()
        invariant
            i <= touches.len(),
            extent::touches_fit(touches@, corridor, walks@),
            marks@ == marks_of(walks@, touches@, i as int),
        decreases touches.len() - i,
    {
        let touch: &Touch = &touches[i];
        assert(touches@[i as int].sample < walks@.len());
        let walk: &RayWalk = &walks[touch.sample];
        let ghost before = marks@;
        let mut r: usize = 0;
        assert(before + Seq::<F64>::empty() =~= before);
        while r < touch.runs.len()
            invariant
                r <= touch.runs@.len(),
                i < touches.len(),
                *touch == touches@[i as int],
                *walk == walks@[touch.sample as int],
                extent::touches_fit(touches@, corridor, walks@),
                marks@ == before + sample_marks(*walk, touch.runs@, r as int),
            decreases touch.runs.len() - r,
        {
            assert(touches@[i as int].runs@[r as int] < walk.runs@.len());
            let run: &WeldedRun = &walk.runs[touch.runs[r]];
            let ghost done = marks@;
            let mut n: usize = 0;
            assert(done + Seq::<F64>::empty() =~= done);
            while n < walk.spans.len()
                invariant
                    n <= walk.spans@.len(),
                    marks@ == done + run_marks(walk.spans@, *run, n as int),
                decreases walk.spans.len() - n,
            {
                let span: Span = walk.spans[n];
                let ghost now = marks@;
                if run.start.lt(span.end) && span.start.lt(run.end) {
                    marks.push(span.start);
                    marks.push(span.end);
                }
                assert(marks@ =~= done + run_marks(walk.spans@, *run, n + 1));
                n = n + 1;
            }
            assert(marks@ =~= before + sample_marks(*walk, touch.runs@, r + 1));
            r = r + 1;
        }
        i = i + 1;
    }
    marks
}

fn order_marks(start: F64, end: F64, marks: &Vec<F64>) -> (ordered: Vec<F64>)
    ensures
        in_rank_order(ordered@),
        ordered@.to_multiset() == (seq![start, end] + marks@).to_multiset(),
{
    let mut all: Vec<F64> = Vec::new();
    all.push(start);
    all.push(end);
    let mut n: usize = 0;
    assert(all@ =~= seq![start, end] + marks@.take(0));
    while n < marks.len()
        invariant
            n <= marks.len(),
            all@ == seq![start, end] + marks@.take(n as int),
        decreases marks.len() - n,
    {
        all.push(marks[n]);
        assert(all@ =~= seq![start, end] + marks@.take(n + 1));
        n = n + 1;
    }
    assert(marks@.take(n as int) =~= marks@);
    let mut ordered: Vec<F64> = Vec::new();
    let mut next: usize = 0;
    assert(all@.take(0) =~= Seq::<F64>::empty());
    while next < all.len()
        invariant
            next <= all.len(),
            in_rank_order(ordered@),
            ordered@.to_multiset() == all@.take(next as int).to_multiset(),
        decreases all.len() - next,
    {
        let t: F64 = all[next];
        let ghost before = ordered@;
        let mut place: usize = ordered.len();
        while place > 0 && t.order_key() < ordered[place - 1].order_key()
            invariant
                place <= ordered.len(),
                ordered@ == before,
                in_rank_order(before),
                forall|i: int| place <= i < before.len() ==> t.rank() < (#[trigger] before[i]).rank(),
            decreases place,
        {
            place = place - 1;
        }
        ordered.insert(place, t);
        proof {
            let after = ordered@;
            assert(after =~= before.insert(place as int, t));
            vstd::seq_lib::to_multiset_insert(before, place as int, t);
            all@.take(next as int).to_multiset_ensures();
            assert(all@.take(next + 1) =~= all@.take(next as int).push(t));
            assert forall|i: int, j: int| 0 <= i < j < after.len() implies (#[trigger] after[i]).rank() <= (#[trigger] after[j]).rank() by {
                if j == place {
                    assert(after[i] == before[i]);
                    if i < place - 1 {
                        assert(before[i].rank() <= before[place - 1].rank());
                    }
                } else if i == place {
                    assert(after[j] == before[j - 1]);
                } else {
                    let x = if i < place { i } else { i - 1 };
                    let y = if j < place { j } else { j - 1 };
                    assert(after[i] == before[x] && after[j] == before[y]);
                }
            }
        }
        next = next + 1;
    }
    assert(all@.take(next as int) =~= all@);
    ordered
}

fn thin_marks(ordered: &Vec<F64>, start: F64, end: F64) -> (ts: Vec<F64>)
    ensures
        ts@ == trimmed(
            distinct(ordered@, ordered@.len() as int),
            start,
            end,
            distinct(ordered@, ordered@.len() as int).len() as int,
        ),
{
    let mut apart: Vec<F64> = Vec::new();
    let mut n: usize = 0;
    while n < ordered.len()
        invariant
            n <= ordered.len(),
            apart@ == distinct(ordered@, n as int),
        decreases ordered.len() - n,
    {
        let count: usize = apart.len();
        if !(count > 0 && ordered[n].same(apart[count - 1])) {
            apart.push(ordered[n]);
        }
        n = n + 1;
    }
    let mut ts: Vec<F64> = Vec::new();
    let mut m: usize = 0;
    while m < apart.len()
        invariant
            m <= apart.len(),
            ts@ == trimmed(apart@, start, end, m as int),
        decreases apart.len() - m,
    {
        if start.le(apart[m]) && apart[m].le(end) {
            ts.push(apart[m]);
        }
        m = m + 1;
    }
    ts
}

fn read_slope(
    walks: &Vec<RayWalk>,
    touches: &Vec<Touch>,
    mid: F64,
    Ghost(corridor): Ghost<DiscCorridor>,
) -> (slope: F64)
    requires
        extent::touches_fit(touches@, corridor, walks@),
    ensures
        slope == slope_at(walks@, touches@, mid, touches@.len() as int),
{
    let mut slope: F64 = F64::zero();
    let mut i: usize = 0;
    while i < touches.len()
        invariant
            i <= touches.len(),
            extent::touches_fit(touches@, corridor, walks@),
            slope == slope_at(walks@, touches@, mid, i as int),
        decreases touches.len() - i,
    {
        let touch: &Touch = &touches[i];
        assert(touches@[i as int].sample < walks@.len());
        let walk: &RayWalk = &walks[touch.sample];
        let mut inside: bool = false;
        let mut r: usize = 0;
        while r < touch.runs.len() && !inside
            invariant
                r <= touch.runs@.len(),
                i < touches.len(),
                *touch == touches@[i as int],
                *walk == walks@[touch.sample as int],
                extent::touches_fit(touches@, corridor, walks@),
                inside ==> in_runs(*walk, touch.runs@, mid),
                !inside ==> forall|q: int|
                    0 <= q < r ==> !(walk.runs@[(#[trigger] touch.runs@[q]) as int].start.at_most(mid) && mid.below(
                        walk.runs@[touch.runs@[q] as int].end,
                    )),
            decreases touch.runs.len() - r,
        {
            assert(touches@[i as int].runs@[r as int] < walk.runs@.len());
            let run: &WeldedRun = &walk.runs[touch.runs[r]];
            if run.start.le(mid) && mid.lt(run.end) {
                inside = true;
                assert(walk.runs@[touch.runs@[r as int] as int].start.at_most(mid));
            }
            r = r + 1;
        }
        if inside {
            let mut n: usize = 0;
            let mut found: bool = false;
            while n < walk.spans.len() && !found
                invariant
                    n <= walk.spans@.len(),
                    found ==> n < walk.spans@.len() && span_at(walk.spans@, mid, 0) == Some(walk.spans@[n as int]),
                    !found ==> span_at(walk.spans@, mid, 0) == span_at(walk.spans@, mid, n as int),
                decreases (walk.spans.len() - n) + if found { 0int } else { 1int },
            {
                if walk.spans[n].start.le(mid) && mid.lt(walk.spans[n].end) {
                    found = true;
                } else {
                    n = n + 1;
                }
            }
            if found {
                slope = slope.plus(walk.spans[n].factor.to_double());
            }
        }
        i = i + 1;
    }
    slope
}

/// Builds the profile of a crossing.
pub fn read_profile(
    walks: &Vec<RayWalk>,
    touches: &Vec<Touch>,
    start: F64,
    end: F64,
    k: usize,
    Ghost(corridor): Ghost<DiscCorridor>,
) -> (profile: CostProfile)
    requires
        extent::touches_fit(touches@, corridor, walks@),
    ensures
        is_profile(profile, walks@, touches@, start, end, k as nat),
        profile.wf(),
{
    let marks: Vec<F64> = collect_marks(walks, touches, Ghost(corridor));
    let ordered: Vec<F64> = order_marks(start, end, &marks);
    let ts: Vec<F64> = thin_marks(&ordered, start, end);
    assert(in_rank_order(ordered@));
    let kf: F64 = F64::from_whole(k as u64);
    let mut cumulative: Vec<F64> = Vec::new();
    cumulative.push(F64::zero());
    let mut n: usize = 1;
    while n < ts.len()
        invariant
            1 <= n,
            n <= ts.len() || n == 1,
            cumulative@.len() == n,
            kf == F64::whole(k as nat),
            extent::touches_fit(touches@, corridor, walks@),
            forall|i: int|
                0 <= i < n ==> #[trigger] cumulative@[i] == cumulative_at(walks@, touches@, ts@, k as nat, i),
        decreases ts.len() - n,
    {
        let a: F64 = ts[n - 1];
        let b: F64 = ts[n];
        let mid: F64 = (F64 { bits: 0x3fe0_0000_0000_0000 }).times(a.plus(b));
        let slope: F64 = read_slope(walks, touches, mid, Ghost(corridor));
        let last: F64 = cumulative[n - 1];
        cumulative.push(last.plus(b.minus(a).times(slope).over(kf)));
        n = n + 1;
    }
    CostProfile { ts, cumulative }
}

} // verus!
