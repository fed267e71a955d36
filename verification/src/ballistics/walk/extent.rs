//! Which samples a disc crossing covers, and where it enters and leaves.

use crate::ballistics::walk::disc::DiscCorridor;
use crate::ballistics::walk::events;
use crate::ballistics::walk::events::position_at;
use crate::ballistics::walk::ray::RayWalk;
use crate::ballistics::walk::vocabulary::Entity;
use crate::ballistics::walk::weld::WeldedRun;
use crate::float::{F32, F64};
use crate::vector::Vec3;
use vstd::prelude::*;

verus! {

/// The runs of one sample that belong to a crossing.
#[derive(Clone, Debug, PartialEq)]
pub struct Touch {
    pub sample: usize,
    pub runs: Vec<usize>,
}

/// The crossing's samples exist, each with at least one run, in rising order.
pub open spec fn touches_fit(touches: Seq<Touch>, corridor: DiscCorridor, walks: Seq<RayWalk>) -> bool {
    &&& walks.len() == corridor.samples@.len()
    &&& forall|i: int|
        0 <= i < touches.len() ==> (#[trigger] touches[i]).sample < walks.len() && touches[i].runs@.len() > 0
    &&& forall|i: int, r: int|
        0 <= i < touches.len() && 0 <= r < touches[i].runs@.len() ==> (#[trigger] touches[i].runs@[r])
            < walks[touches[i].sample as int].runs@.len()
}

pub open spec fn first_run(walks: Seq<RayWalk>, touch: Touch) -> WeldedRun {
    walks[touch.sample as int].runs@[touch.runs@[0] as int]
}

pub open spec fn last_run(walks: Seq<RayWalk>, touch: Touch) -> WeldedRun {
    walks[touch.sample as int].runs@[touch.runs@.last() as int]
}

/// Where the sample's ray starts.
pub open spec fn sample_base(corridor: DiscCorridor, sample: int) -> Vec3 {
    corridor.origin.sum(corridor.samples@[sample].offset)
}

/// The earliest start among the first `n` samples.
pub open spec fn start_of(walks: Seq<RayWalk>, touches: Seq<Touch>, n: int) -> F64
    decreases n,
{
    if n <= 0 {
        F64 { bits: 0x7ff0_0000_0000_0000 }
    } else {
        start_of(walks, touches, n - 1).smaller(first_run(walks, touches[n - 1]).start)
    }
}

/// The latest end among the first `n` samples.
pub open spec fn end_of(walks: Seq<RayWalk>, touches: Seq<Touch>, n: int) -> F64
    decreases n,
{
    if n <= 0 {
        F64 { bits: 0xfff0_0000_0000_0000 }
    } else {
        end_of(walks, touches, n - 1).larger(last_run(walks, touches[n - 1]).end)
    }
}

/// The entry volume of the sample, among the first `n`, that touched first.
pub open spec fn volume_of(walks: Seq<RayWalk>, touches: Seq<Touch>, n: int) -> Option<Entity>
    decreases n,
{
    if n <= 0 {
        None
    } else if first_run(walks, touches[n - 1]).start.below(start_of(walks, touches, n - 1)) {
        Some(first_run(walks, touches[n - 1]).entry_volume)
    } else {
        volume_of(walks, touches, n - 1)
    }
}

/// The sum of the first `n` samples' entry normals.
pub open spec fn entry_sum(walks: Seq<RayWalk>, touches: Seq<Touch>, n: int) -> Vec3
    decreases n,
{
    if n <= 0 {
        Vec3::zero()
    } else {
        entry_sum(walks, touches, n - 1).sum(first_run(walks, touches[n - 1]).entry_normal)
    }
}

/// The sum of the first `n` samples' exit normals.
pub open spec fn exit_sum(walks: Seq<RayWalk>, touches: Seq<Touch>, n: int) -> Vec3
    decreases n,
{
    if n <= 0 {
        Vec3::zero()
    } else {
        exit_sum(walks, touches, n - 1).sum(last_run(walks, touches[n - 1]).exit_normal)
    }
}

/// The sum of the first `n` samples' entry points.
pub open spec fn entry_points(corridor: DiscCorridor, walks: Seq<RayWalk>, touches: Seq<Touch>, n: int) -> Vec3
    decreases n,
{
    if n <= 0 {
        Vec3::zero()
    } else {
        let touch = touches[n - 1];
        entry_points(corridor, walks, touches, n - 1).sum(
            events::point_at(sample_base(corridor, touch.sample as int), corridor.axis, first_run(walks, touch).start),
        )
    }
}

/// The sum of the first `n` samples' exit points.
pub open spec fn exit_points(corridor: DiscCorridor, walks: Seq<RayWalk>, touches: Seq<Touch>, n: int) -> Vec3
    decreases n,
{
    if n <= 0 {
        Vec3::zero()
    } else {
        let touch = touches[n - 1];
        exit_points(corridor, walks, touches, n - 1).sum(
            events::point_at(sample_base(corridor, touch.sample as int), corridor.axis, last_run(walks, touch).end),
        )
    }
}

/// A count over the disc's samples.
pub open spec fn share_of(count: nat, k: nat) -> F32 {
    F64::whole(count).quotient(F64::whole(k)).halved()
}

/// Where a crossing enters and leaves, before its means are taken.
pub struct Extent {
    pub start: F64,
    pub end: F64,
    pub entrance_volume: Option<Entity>,
    pub entry_sum: Vec3,
    pub exit_sum: Vec3,
    pub entry_points: Vec3,
    pub exit_points: Vec3,
}

pub open spec fn is_extent(
    extent: Extent,
    corridor: DiscCorridor,
    walks: Seq<RayWalk>,
    touches: Seq<Touch>,
    n: int,
) -> bool {
    &&& extent.start == start_of(walks, touches, n)
    &&& extent.end == end_of(walks, touches, n)
    &&& extent.entrance_volume == volume_of(walks, touches, n)
    &&& extent.entry_sum == entry_sum(walks, touches, n)
    &&& extent.exit_sum == exit_sum(walks, touches, n)
    &&& extent.entry_points == entry_points(corridor, walks, touches, n)
    &&& extent.exit_points == exit_points(corridor, walks, touches, n)
}

/// Reads the crossing's ends off its samples.
pub fn read_extent(corridor: &DiscCorridor, walks: &Vec<RayWalk>, touches: &Vec<Touch>) -> (extent: Extent)
    requires
        touches_fit(touches@, *corridor, walks@),
    ensures
        is_extent(extent, *corridor, walks@, touches@, touches@.len() as int),
{
    let mut extent: Extent = Extent {
        start: F64 { bits: 0x7ff0_0000_0000_0000 },
        end: F64 { bits: 0xfff0_0000_0000_0000 },
        entrance_volume: None,
        entry_sum: Vec3::zero(),
        exit_sum: Vec3::zero(),
        entry_points: Vec3::zero(),
        exit_points: Vec3::zero(),
    };
    let mut i: usize = 0;
    while i < touches.len()
        invariant
            i <= touches.len(),
            touches_fit(touches@, *corridor, walks@),
            is_extent(extent, *corridor, walks@, touches@, i as int),
        decreases touches.len() - i,
    {
        let touch: &Touch = &touches[i];
        let count: usize = touch.runs.len();
        assert(touches@[i as int].runs@[0] < walks@[touch.sample as int].runs@.len());
        assert(touches@[i as int].runs@[count - 1] < walks@[touch.sample as int].runs@.len());
        let walk: &RayWalk = &walks[touch.sample];
        let first: &WeldedRun = &walk.runs[touch.runs[0]];
        let last: &WeldedRun = &walk.runs[touch.runs[count - 1]];
        let base: Vec3 = corridor.origin.plus(corridor.samples[touch.sample].offset);
        let entrance_volume: Option<Entity> = if first.start.lt(extent.start) {
            Some(first.entry_volume)
        } else {
            extent.entrance_volume
        };
        extent = Extent {
            start: extent.start.min(first.start),
            end: extent.end.max(last.end),
            entrance_volume,
            entry_sum: extent.entry_sum.plus(first.entry_normal),
            exit_sum: extent.exit_sum.plus(last.exit_normal),
            entry_points: extent.entry_points.plus(position_at(base, corridor.axis, first.start)),
            exit_points: extent.exit_points.plus(position_at(base, corridor.axis, last.end)),
        };
        i = i + 1;
    }
    extent
}

} // verus!
