//! Where the field steps along a ray, and what each step means.

use crate::ballistics::walk::weld::{MaterialSegment, WeldedRun};
use crate::float::{F32, F64};
use crate::vector::Vec3;
use vstd::prelude::*;

verus! {

#[derive(Clone, Copy, Debug, PartialEq, Eq, Structural)]
pub enum BoundaryKind {
    /// From air into material at the outermost face; once per run.
    Entrance,
    /// From material to material inside a run.
    Step,
    /// From material into air at the innermost face.
    Exit,
}

/// One step of the field. Spall fires wherever the step is downward, the exit included.
#[derive(Clone, Copy, Debug, PartialEq, Eq, Structural)]
pub struct BoundaryEvent {
    pub kind: BoundaryKind,
    pub t: F64,
    pub position: Vec3,
    pub normal: Vec3,
    pub factor_before: F32,
    pub factor_after: F32,
    /// The cost of the stretch just left; zero unless the step is downward.
    pub spall_budget: F32,
    /// The step exists only because a gap was welded away.
    pub welded: bool,
    pub run: usize,
}

/// The point at a distance along the ray.
pub open spec fn point_at(origin: Vec3, axis: Vec3, t: F64) -> Vec3 {
    origin.sum(axis.scaled(t.halved()))
}

pub fn position_at(origin: Vec3, axis: Vec3, t: F64) -> (point: Vec3)
    ensures
        point == point_at(origin, axis, t),
{
    origin.plus(axis.times(t.to_single()))
}

pub open spec fn entrance_event(run: WeldedRun, index: usize, origin: Vec3, axis: Vec3) -> BoundaryEvent {
    BoundaryEvent {
        kind: BoundaryKind::Entrance,
        t: run.start,
        position: point_at(origin, axis, run.start),
        normal: run.entry_normal,
        factor_before: F32::zero(),
        factor_after: run.segments@[0].factor,
        spall_budget: F32::zero(),
        welded: false,
        run: index,
    }
}

pub open spec fn step_event(
    before: MaterialSegment,
    after: MaterialSegment,
    index: usize,
    origin: Vec3,
    axis: Vec3,
) -> BoundaryEvent {
    BoundaryEvent {
        kind: BoundaryKind::Step,
        t: before.end,
        position: point_at(origin, axis, before.end),
        normal: axis,
        factor_before: before.factor,
        factor_after: after.factor,
        spall_budget: if after.factor.below(before.factor) {
            before.cost
        } else {
            F32::zero()
        },
        welded: !after.start.equals(before.end),
        run: index,
    }
}

pub open spec fn exit_event(run: WeldedRun, index: usize, origin: Vec3, axis: Vec3) -> BoundaryEvent {
    BoundaryEvent {
        kind: BoundaryKind::Exit,
        t: run.end,
        position: point_at(origin, axis, run.end),
        normal: run.exit_normal,
        factor_before: run.segments@.last().factor,
        factor_after: F32::zero(),
        spall_budget: run.segments@.last().cost,
        welded: false,
        run: index,
    }
}

/// The steps of one run: its entrance, a step between each two segments, its exit.
pub open spec fn run_events(run: WeldedRun, index: usize, origin: Vec3, axis: Vec3) -> Seq<BoundaryEvent> {
    let segments = run.segments@;
    if segments.len() == 0 {
        Seq::empty()
    } else {
        seq![entrance_event(run, index, origin, axis)] + steps_upto(segments, index, origin, axis, segments.len() - 1).push(
            exit_event(run, index, origin, axis),
        )
    }
}

/// The steps between the first `n + 1` segments.
pub open spec fn steps_upto(
    segments: Seq<MaterialSegment>,
    index: usize,
    origin: Vec3,
    axis: Vec3,
    n: int,
) -> Seq<BoundaryEvent>
    decreases n,
{
    if n <= 0 {
        Seq::empty()
    } else {
        steps_upto(segments, index, origin, axis, n - 1).push(step_event(segments[n - 1], segments[n], index, origin, axis))
    }
}

/// The steps of the first `n` runs, in order.
pub open spec fn events_upto(runs: Seq<WeldedRun>, origin: Vec3, axis: Vec3, n: int) -> Seq<BoundaryEvent>
    decreases n,
{
    if n <= 0 {
        Seq::empty()
    } else {
        events_upto(runs, origin, axis, n - 1) + run_events(runs[n - 1], (n - 1) as usize, origin, axis)
    }
}

/// The ordered steps of the field.
pub fn boundary_events(origin: Vec3, axis: Vec3, runs: &Vec<WeldedRun>) -> (events: Vec<BoundaryEvent>)
    ensures
        events@ == events_upto(runs@, origin, axis, runs@.len() as int),
{
    let mut events: Vec<BoundaryEvent> = Vec::new();
    let mut index: usize = 0;
    while index < runs.len()
        invariant
            index <= runs.len(),
            events@ == events_upto(runs@, origin, axis, index as int),
        decreases runs.len() - index,
    {
        let run: &WeldedRun = &runs[index];
        let count: usize = run.segments.len();
        let ghost before = events@;
        if count > 0 {
            events.push(
                BoundaryEvent {
                    kind: BoundaryKind::Entrance,
                    t: run.start,
                    position: position_at(origin, axis, run.start),
                    normal: run.entry_normal,
                    factor_before: F32::zero(),
                    factor_after: run.segments[0].factor,
                    spall_budget: F32::zero(),
                    welded: false,
                    run: index,
                },
            );
            let ghost opened = events@;
            assert(opened =~= before.push(entrance_event(*run, index, origin, axis)));
            let mut next: usize = 1;
            assert(opened + Seq::<BoundaryEvent>::empty() =~= opened);
            while next < count
                invariant
                    1 <= next <= count,
                    count == run.segments@.len(),
                    events@ == opened + steps_upto(run.segments@, index, origin, axis, next - 1),
                decreases count - next,
            {
                let former: MaterialSegment = run.segments[next - 1];
                let latter: MaterialSegment = run.segments[next];
                let downward: bool = latter.factor.lt(former.factor);
                let ghost done = events@;
                events.push(
                    BoundaryEvent {
                        kind: BoundaryKind::Step,
                        t: former.end,
                        position: position_at(origin, axis, former.end),
                        normal: axis,
                        factor_before: former.factor,
                        factor_after: latter.factor,
                        spall_budget: if downward {
                            former.cost
                        } else {
                            F32::zero()
                        },
                        welded: !latter.start.same(former.end),
                        run: index,
                    },
                );
                assert(events@ =~= opened + steps_upto(run.segments@, index, origin, axis, next as int));
                next = next + 1;
            }
            let last: MaterialSegment = run.segments[count - 1];
            events.push(
                BoundaryEvent {
                    kind: BoundaryKind::Exit,
                    t: run.end,
                    position: position_at(origin, axis, run.end),
                    normal: run.exit_normal,
                    factor_before: last.factor,
                    factor_after: F32::zero(),
                    spall_budget: last.cost,
                    welded: false,
                    run: index,
                },
            );
            assert(events@ =~= before + run_events(*run, index, origin, axis));
        } else {
            assert(before =~= before + run_events(*run, index, origin, axis));
        }
        index = index + 1;
    }
    events
}

} // verus!
