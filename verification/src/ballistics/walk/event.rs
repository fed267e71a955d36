//! One disc crossing, built from the runs that belong to it.

use crate::ballistics::walk::disc::{CostProfile, DiscCorridor, DiscEvent, EntityShare};
use crate::ballistics::walk::extent;
use crate::ballistics::walk::extent::{read_extent, Extent, Touch};
use crate::ballistics::walk::profile;
use crate::ballistics::walk::profile::read_profile;
use crate::ballistics::walk::ray::RayWalk;
use crate::ballistics::walk::shares;
use crate::ballistics::walk::shares::read_shares;
use crate::ballistics::walk::spall;
use crate::ballistics::walk::spall::read_spall;
use crate::ballistics::walk::vocabulary::{Entity, PrimitiveKey, WalkError};
use crate::ballistics::walk::weld;
use crate::ballistics::walk::weld::insert_primitive;
use crate::float::{F32, F64};
use crate::vector::{unit_or_zero, Vec3};
use vstd::prelude::*;

verus! {

/// The mean of the covered samples' normals. A single sample is its own mean:
/// taking its direction again would move its low bits.
pub open spec fn mean_normal(sum: Vec3, covered: nat) -> Vec3 {
    if covered == 1 {
        sum
    } else {
        sum.direction()
    }
}

/// Several covered samples whose entry normals cancel.
pub open spec fn is_degenerate(walks: Seq<RayWalk>, touches: Seq<Touch>) -> bool {
    touches.len() != 1 && extent::entry_sum(walks, touches, touches.len() as int).direction().equals(Vec3::zero())
}

/// Some run of the crossing touches the primitive.
pub open spec fn touches_primitive(walks: Seq<RayWalk>, touches: Seq<Touch>, key: PrimitiveKey) -> bool {
    exists|i: int, r: int|
        0 <= i < touches.len() && 0 <= r < touches[i].runs@.len() && #[trigger] run_has(walks, touches, i, r, key)
}

pub open spec fn run_has(walks: Seq<RayWalk>, touches: Seq<Touch>, i: int, r: int, key: PrimitiveKey) -> bool {
    walks[touches[i].sample as int].runs@[touches[i].runs@[r] as int].primitives@.contains(key)
}

/// The crossing that the covered samples make up; it has an entry normal.
pub open spec fn is_event(event: DiscEvent, corridor: DiscCorridor, walks: Seq<RayWalk>, touches: Seq<Touch>) -> bool {
    let n = touches.len() as int;
    let k = corridor.samples@.len();
    let covered = F32::whole(touches.len());
    &&& !is_degenerate(walks, touches)
    &&& event.start == extent::start_of(walks, touches, n)
    &&& event.end == extent::end_of(walks, touches, n)
    &&& event.entry_normal == mean_normal(extent::entry_sum(walks, touches, n), touches.len())
    &&& event.exit_normal == mean_normal(extent::exit_sum(walks, touches, n), touches.len())
    &&& event.entry_position == extent::entry_points(corridor, walks, touches, n).shared(covered)
    &&& event.exit_position == extent::exit_points(corridor, walks, touches, n).shared(covered)
    &&& event.coverage == extent::share_of(touches.len(), k)
    &&& event.exit_coverage == extent::share_of(spall::exits_of(spall::all_downs(walks, touches), n), k)
    &&& event.entrance_volume == match extent::volume_of(walks, touches, n) {
        Some(volume) => volume,
        None => Entity::placeholder(),
    }
    &&& weld::in_primitive_order(event.primitives@)
    &&& forall|key: PrimitiveKey| #[trigger] event.primitives@.contains(key) <==> touches_primitive(walks, touches, key)
    &&& profile::is_profile(event.profile, walks, touches, event.start, event.end, k)
    &&& event.profile.wf()
    &&& event.cost == event.profile.spec_total().halved()
    &&& shares::are_shares(event.shares@, walks, touches, k)
    &&& spall::are_spall(event.spall@, spall::all_downs(walks, touches), k)
}

fn collect_primitives(
    walks: &Vec<RayWalk>,
    touches: &Vec<Touch>,
    Ghost(corridor): Ghost<DiscCorridor>,
) -> (keys: Vec<PrimitiveKey>)
    requires
        extent::touches_fit(touches@, corridor, walks@),
    ensures
        weld::in_primitive_order(keys@),
        forall|key: PrimitiveKey| #[trigger] keys@.contains(key) <==> touches_primitive(walks@, touches@, key),
{
    let mut keys: Vec<PrimitiveKey> = Vec::new();
    let mut i: usize = 0;
    while i < touches.len()
        invariant
            i <= touches.len(),
            extent::touches_fit(touches@, corridor, walks@),
            weld::in_primitive_order(keys@),
            forall|key: PrimitiveKey| #[trigger] keys@.contains(key) ==> touches_primitive(walks@, touches@, key),
            forall|j: int, r: int, key: PrimitiveKey|
                0 <= j < i && 0 <= r < touches@[j].runs@.len() && #[trigger] run_has(walks@, touches@, j, r, key)
                    ==> keys@.contains(key),
        decreases touches.len() - i,
    {
        let touch: &Touch = &touches[i];
        assert(touches@[i as int].sample < walks@.len());
        let walk: &RayWalk = &walks[touch.sample];
        let mut r: usize = 0;
        while r < touch.runs.len()
            invariant
                r <= touch.runs@.len(),
                i < touches.len(),
                *touch == touches@[i as int],
                *walk == walks@[touch.sample as int],
                extent::touches_fit(touches@, corridor, walks@),
                weld::in_primitive_order(keys@),
                forall|key: PrimitiveKey| #[trigger] keys@.contains(key) ==> touches_primitive(walks@, touches@, key),
                forall|j: int, q: int, key: PrimitiveKey|
                    0 <= j <= i && 0 <= q < touches@[j].runs@.len() && (j < i || q < r) && #[trigger] run_has(
                        walks@,
                        touches@,
                        j,
                        q,
                        key,
                    ) ==> keys@.contains(key),
            decreases touch.runs.len() - r,
        {
            assert(touches@[i as int].runs@[r as int] < walk.runs@.len());
            let own: &Vec<PrimitiveKey> = &walk.runs[touch.runs[r]].primitives;
            let ghost seen = keys@;
            let mut n: usize = 0;
            while n < own.len()
                invariant
                    n <= own@.len(),
                    i < touches.len(),
                    r < touches@[i as int].runs@.len(),
                    *touch == touches@[i as int],
                    *walk == walks@[touch.sample as int],
                    own == walk.runs@[touch.runs@[r as int] as int].primitives,
                    weld::in_primitive_order(keys@),
                    forall|key: PrimitiveKey| #[trigger]
                        keys@.contains(key) ==> touches_primitive(walks@, touches@, key),
                    forall|key: PrimitiveKey| seen.contains(key) ==> #[trigger] keys@.contains(key),
                    forall|m: int| 0 <= m < n ==> keys@.contains(#[trigger] own@[m]),
                decreases own.len() - n,
            {
                let ghost before = keys@;
                insert_primitive(&mut keys, own[n]);
                proof {
                    assert(own@.contains(own@[n as int]));
                    assert(run_has(walks@, touches@, i as int, r as int, own@[n as int]));
                    assert forall|key: PrimitiveKey| #[trigger] keys@.contains(key) implies touches_primitive(
                        walks@,
                        touches@,
                        key,
                    ) by {
                        if key != own@[n as int] {
                            assert(before.contains(key));
                        }
                    }
                    assert forall|m: int| 0 <= m < n + 1 implies keys@.contains(#[trigger] own@[m]) by {
                        if m < n {
                            assert(before.contains(own@[m]));
                        }
                    }
                    assert forall|key: PrimitiveKey| seen.contains(key) implies #[trigger] keys@.contains(key) by {
                        assert(before.contains(key));
                    }
                }
                n = n + 1;
            }
            proof {
                assert forall|j: int, q: int, key: PrimitiveKey|
                    0 <= j <= i && 0 <= q < touches@[j].runs@.len() && (j < i || q < r + 1) && #[trigger] run_has(
                        walks@,
                        touches@,
                        j,
                        q,
                        key,
                    ) implies keys@.contains(key) by {
                    if j < i || q < r {
                        assert(seen.contains(key));
                    } else {
                        let m = choose|m: int| 0 <= m < own@.len() && own@[m] == key;
                        assert(keys@.contains(own@[m]));
                    }
                }
            }
            r = r + 1;
        }
        i = i + 1;
    }
    proof {
        assert forall|key: PrimitiveKey| touches_primitive(walks@, touches@, key) implies #[trigger] keys@.contains(
            key,
        ) by {
            let (j, r) = choose|j: int, r: int|
                0 <= j < touches@.len() && 0 <= r < touches@[j].runs@.len() && #[trigger] run_has(
                    walks@,
                    touches@,
                    j,
                    r,
                    key,
                );
            assert(run_has(walks@, touches@, j, r, key));
        }
    }
    keys
}

/// Builds one crossing. Fails where several covered samples' entry normals cancel.
pub fn build_event(corridor: &DiscCorridor, walks: &Vec<RayWalk>, touches: &Vec<Touch>) -> (result: Result<
    DiscEvent,
    WalkError,
>)
    requires
        extent::touches_fit(touches@, *corridor, walks@),
    ensures
        match result {
            Ok(event) => is_event(event, *corridor, walks@, touches@),
            Err(error) => is_degenerate(walks@, touches@) && error == (WalkError::DegenerateEntryNormal {
                coverage: extent::share_of(touches@.len(), corridor.samples@.len()),
            }),
        },
{
    let k: usize = corridor.samples.len();
    let kf: F64 = F64::from_whole(k as u64);
    let reach: Extent = read_extent(corridor, walks, touches);
    let covered: usize = touches.len();
    let coverage: F32 = F64::from_whole(covered as u64).over(kf).to_single();
    let entry_normal: Vec3 = if covered == 1 { reach.entry_sum } else { unit_or_zero(reach.entry_sum) };
    if covered != 1 && entry_normal.same(Vec3::zero()) {
        return Err(WalkError::DegenerateEntryNormal { coverage });
    }
    let exit_normal: Vec3 = if covered == 1 { reach.exit_sum } else { unit_or_zero(reach.exit_sum) };
    let count: F32 = F32::from_whole(covered as u64);
    let profile: CostProfile = read_profile(walks, touches, reach.start, reach.end, k, Ghost(*corridor));
    let cost: F32 = profile.total().to_single();
    let shares: Vec<EntityShare> = read_shares(walks, touches, k, Ghost(*corridor));
    let (spall, exits) = read_spall(walks, touches, k, Ghost(*corridor));
    let primitives: Vec<PrimitiveKey> = collect_primitives(walks, touches, Ghost(*corridor));
    let entrance_volume: Entity = match reach.entrance_volume {
        Some(volume) => volume,
        None => Entity::placeholder(),
    };
    Ok(
        DiscEvent {
            start: reach.start,
            end: reach.end,
            entry_normal,
            entry_position: reach.entry_points.over(count),
            exit_normal,
            exit_position: reach.exit_points.over(count),
            coverage,
            exit_coverage: F64::from_whole(exits as u64).over(kf).to_single(),
            entrance_volume,
            primitives,
            cost,
            profile,
            spall,
            shares,
        },
    )
}

} // verus!
