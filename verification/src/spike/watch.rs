//! What both ends watch for: jumps, rollbacks, poisoned poses, and the time between two logs.

use crate::float::F32;
use crate::vector::{Quat, Vec3};
use vstd::prelude::*;

verus! {

/// A jump (m) that no honest tick makes.
#[verifier::allow_in_spec]
pub fn snap_limit() -> F32
    returns
        (F32 { bits: 0x3f00_0000 }),
{
    F32 { bits: 0x3f00_0000 }
}

/// How far (m) a turret may move on its hull within a tick.
#[verifier::allow_in_spec]
pub fn drift_limit() -> F32
    returns
        (F32 { bits: 0x3dcc_cccd }),
{
    F32 { bits: 0x3dcc_cccd }
}

/// Where something last was.
#[derive(Clone, Copy, Debug, PartialEq, Eq, Structural)]
pub struct LastPosition {
    pub at: Option<Vec3>,
}

impl LastPosition {
    /// How far it has moved, where that is more than the limit.
    pub open spec fn jumped(self, now: Vec3, limit: F32) -> Option<F32> {
        match self.at {
            Some(previous) => {
                let delta = now.difference(previous).norm();
                if limit.below(delta) {
                    Some(delta)
                } else {
                    None
                }
            },
            None => None,
        }
    }

    /// Notes where it is now, and tells of a jump.
    pub fn moved(&mut self, now: Vec3, limit: F32) -> (jump: Option<F32>)
        ensures
            jump == old(self).jumped(now, limit),
            final(self).at == Some(now),
    {
        let jump: Option<F32> = match self.at {
            Some(previous) => {
                let delta: F32 = now.minus(previous).length();
                if limit.lt(delta) {
                    Some(delta)
                } else {
                    None
                }
            },
            None => None,
        };
        self.at = Some(now);
        jump
    }
}

/// How many rollbacks have been told of.
#[derive(Clone, Copy, Debug, PartialEq, Eq, Structural)]
pub struct RollbackWatch {
    pub last_count: u32,
}

impl RollbackWatch {
    /// Whether the count is news.
    pub fn is_news(&mut self, count: u32) -> (yes: bool)
        ensures
            yes == (count != old(self).last_count),
            final(self).last_count == count,
    {
        let yes: bool = count != self.last_count;
        self.last_count = count;
        yes
    }
}

/// The time (s) since the last log.
#[derive(Clone, Copy, Debug, PartialEq, Eq, Structural)]
pub struct LogTimer {
    pub seconds: F32,
}

impl LogTimer {
    /// Whether it is time to log again, two seconds after the last.
    pub fn is_due(&mut self, delta: F32) -> (yes: bool)
        ensures
            ({
                let seconds = old(self).seconds.sum(delta);
                &&& yes == !seconds.below(F32 { bits: 0x4000_0000 })
                &&& final(self).seconds == if yes {
                    F32::zero()
                } else {
                    seconds
                }
            }),
    {
        self.seconds = self.seconds.plus(delta);
        if self.seconds.lt(F32 { bits: 0x4000_0000 }) {
            return false;
        }
        self.seconds = F32::zero();
        true
    }
}

pub open spec fn sound(v: Vec3) -> bool {
    v.x.finite() && v.y.finite() && v.z.finite()
}

pub open spec fn sound_turn(q: Quat) -> bool {
    q.x.finite() && q.y.finite() && q.z.finite() && q.w.finite()
}

fn is_sound(v: Vec3) -> (yes: bool)
    ensures
        yes == sound(v),
{
    v.x.is_finite() && v.y.is_finite() && v.z.is_finite()
}

fn is_sound_turn(q: Quat) -> (yes: bool)
    ensures
        yes == sound_turn(q),
{
    q.x.is_finite() && q.y.is_finite() && q.z.is_finite() && q.w.is_finite()
}

/// The places of the poisoned positions among the first ones.
pub open spec fn poisoned(positions: Seq<Vec3>, n: int) -> Seq<usize>
    decreases n,
{
    if n <= 0 {
        seq![]
    } else if sound(positions[n - 1]) {
        poisoned(positions, n - 1)
    } else {
        poisoned(positions, n - 1).push((n - 1) as usize)
    }
}

/// The places of the poisoned poses among the first ones.
pub open spec fn poisoned_poses(poses: Seq<(Vec3, Quat)>, n: int) -> Seq<usize>
    decreases n,
{
    if n <= 0 {
        seq![]
    } else if sound(poses[n - 1].0) && sound_turn(poses[n - 1].1) {
        poisoned_poses(poses, n - 1)
    } else {
        poisoned_poses(poses, n - 1).push((n - 1) as usize)
    }
}

/// The places told are those, in order, of every position with a part that is no finite number, and
/// no other.
pub proof fn law_every_poisoned_position_is_told(positions: Seq<Vec3>, n: int)
    requires
        0 <= n <= positions.len(),
        positions.len() <= usize::MAX,
    ensures
        forall|k: int, l: int|
            0 <= k < l < poisoned(positions, n).len() ==> #[trigger] poisoned(positions, n)[k] < #[trigger] poisoned(
                positions,
                n,
            )[l],
        forall|k: int| 0 <= k < poisoned(positions, n).len() ==> #[trigger] poisoned(positions, n)[k] < n,
        forall|i: usize| #[trigger]
            poisoned(positions, n).contains(i) <==> i < n && !(positions[i as int].x.finite()
                && positions[i as int].y.finite() && positions[i as int].z.finite()),
    decreases n,
{
    if n > 0 {
        law_every_poisoned_position_is_told(positions, n - 1);
        let before = poisoned(positions, n - 1);
        let told = poisoned(positions, n);
        if !sound(positions[n - 1]) {
            lemma_one_more(before, (n - 1) as usize);
        }
    }
}

/// The same of poses: a position or a rotation with a part that is no finite number.
pub proof fn law_every_poisoned_pose_is_told(poses: Seq<(Vec3, Quat)>, n: int)
    requires
        0 <= n <= poses.len(),
        poses.len() <= usize::MAX,
    ensures
        forall|k: int, l: int|
            0 <= k < l < poisoned_poses(poses, n).len() ==> #[trigger] poisoned_poses(poses, n)[k]
                < #[trigger] poisoned_poses(poses, n)[l],
        forall|k: int| 0 <= k < poisoned_poses(poses, n).len() ==> #[trigger] poisoned_poses(poses, n)[k] < n,
        forall|i: usize| #[trigger]
            poisoned_poses(poses, n).contains(i) <==> i < n && !({
                let (at, turn) = poses[i as int];
                at.x.finite() && at.y.finite() && at.z.finite() && turn.x.finite() && turn.y.finite() && turn.z.finite()
                    && turn.w.finite()
            }),
    decreases n,
{
    if n > 0 {
        law_every_poisoned_pose_is_told(poses, n - 1);
        let before = poisoned_poses(poses, n - 1);
        if !(sound(poses[n - 1].0) && sound_turn(poses[n - 1].1)) {
            lemma_one_more(before, (n - 1) as usize);
        }
    }
}

/// A list with one more place holds that place and those it held.
proof fn lemma_one_more(places: Seq<usize>, last: usize)
    ensures
        forall|i: usize| #[trigger] places.push(last).contains(i) <==> places.contains(i) || i == last,
{
    let more = places.push(last);
    assert(more[places.len() as int] == last);
    assert forall|i: usize| places.contains(i) implies #[trigger] more.contains(i) by {
        let k = places.index_of(i);
        assert(more[k] == i);
    }
    assert forall|i: usize| #[trigger] more.contains(i) implies places.contains(i) || i == last by {
        let k = more.index_of(i);
        if k < places.len() {
            assert(places[k] == i);
        }
    }
}

/// Trips at the first frame in which a position or a pose is no longer a number, and tells
/// which; once it has tripped it tells nothing more.
pub fn nan_tripwire(tripped: &mut bool, positions: &Vec<Vec3>, poses: &Vec<(Vec3, Quat)>) -> (told: (
    Vec<usize>,
    Vec<usize>,
))
    ensures
        *old(tripped) ==> told.0@.len() == 0 && told.1@.len() == 0,
        !*old(tripped) ==> {
            &&& told.0@ == poisoned(positions@, positions@.len() as int)
            &&& told.1@ == poisoned_poses(poses@, poses@.len() as int)
        },
        *final(tripped) == (*old(tripped) || told.0@.len() > 0 || told.1@.len() > 0),
{
    let mut first: Vec<usize> = Vec::new();
    let mut second: Vec<usize> = Vec::new();
    if *tripped {
        return (first, second);
    }
    let mut i: usize = 0;
    while i < positions.len()
        invariant
            i <= positions@.len(),
            first@ == poisoned(positions@, i as int),
        decreases positions.len() - i,
    {
        if !is_sound(positions[i]) {
            first.push(i);
        }
        i = i + 1;
    }
    let mut j: usize = 0;
    while j < poses.len()
        invariant
            j <= poses@.len(),
            second@ == poisoned_poses(poses@, j as int),
        decreases poses.len() - j,
    {
        if !(is_sound(poses[j].0) && is_sound_turn(poses[j].1)) {
            second.push(j);
        }
        j = j + 1;
    }
    *tripped = first.len() > 0 || second.len() > 0;
    (first, second)
}

} // verus!
