//! The calibre-wide probe: a disc of parallel sample rays.

use crate::ballistics::walk::ray;
use crate::ballistics::walk::ray::RayWalk;
use crate::ballistics::walk::vocabulary::{Entity, FaceHit, PrimitiveKey, ShellKey, WalkLaws};
use crate::float::{F32, F64};
use crate::vector::Vec3;
use vstd::prelude::*;

verus! {

/// The orthonormal basis that the sample ring is laid out in.
#[derive(Clone, Copy, Debug, PartialEq, Eq, Structural)]
pub struct DiscFrame {
    pub u: Vec3,
    pub v: Vec3,
}

impl DiscFrame {
    /// The reference axis an anchored frame is built from: the less aligned of two.
    pub open spec fn spec_reference(axis: Vec3) -> Vec3 {
        if (F32 { bits: 0x3f66_6666 }).below(axis.y.absolute()) {
            Vec3::unit_x()
        } else {
            Vec3::unit_y()
        }
    }

    /// The frame of an axis and a reference direction; none where the axis has no
    /// direction or the reference lies along it.
    pub open spec fn spec_from(axis: Vec3, reference: Vec3) -> Option<DiscFrame> {
        let unit = axis.normalized_or_zero();
        let across = reference.difference(unit.scaled(unit.inner(reference)));
        let len = across.norm();
        if unit.equals(Vec3::zero()) || len.below(F32 { bits: 0x38d1_b717 }) {
            None
        } else {
            Some(DiscFrame { u: across.shared(len), v: unit.outer(across.shared(len)) })
        }
    }

    /// The frame of `to` whose first vector is the carried one made square to it;
    /// re-anchored where the carried vector collapsed onto the axis.
    pub open spec fn spec_transported(self, to: Vec3, carried: Vec3) -> DiscFrame {
        let unit = to.normalized_or_zero();
        let across = carried.difference(unit.scaled(unit.inner(carried)));
        match DiscFrame::spec_from(unit, across) {
            Some(frame) => frame,
            None => match DiscFrame::spec_from(unit, DiscFrame::spec_reference(unit)) {
                Some(frame) => frame,
                None => self,
            },
        }
    }

    /// The frame of a shell fired along `axis`, with no roll reference of its own.
    pub fn anchored(axis: Vec3) -> (frame: Option<DiscFrame>)
        ensures
            frame == DiscFrame::spec_from(axis, DiscFrame::spec_reference(axis)),
    {
        let reference: Vec3 = if (F32 { bits: 0x3f66_6666 }).lt(axis.y.abs()) { Vec3::unit_x() } else { Vec3::unit_y() };
        Self::from_axis_and_reference(axis, reference)
    }

    /// The frame of an axis and an explicit reference direction.
    pub fn from_axis_and_reference(axis: Vec3, reference: Vec3) -> (frame: Option<DiscFrame>)
        ensures
            frame == DiscFrame::spec_from(axis, reference),
    {
        let unit: Vec3 = axis.normalize_or_zero();
        let across: Vec3 = reference.minus(unit.times(unit.dot(reference)));
        let len: F32 = across.length();
        if unit.same(Vec3::zero()) || len.lt(F32 { bits: 0x38d1_b717 }) {
            None
        } else {
            let u: Vec3 = across.over(len);
            Some(DiscFrame { u, v: unit.cross(u) })
        }
    }

    /// Carries the frame through a change of direction to `to`. `carried` is the
    /// first vector turned by the least rotation onto the new direction; what comes
    /// back is a frame for `to`, never re-rolled.
    pub fn transport(&self, to: Vec3, carried: Vec3) -> (frame: DiscFrame)
        ensures
            frame == self.spec_transported(to, carried),
    {
        let unit: Vec3 = to.normalize_or_zero();
        let across: Vec3 = carried.minus(unit.times(unit.dot(carried)));
        match Self::from_axis_and_reference(unit, across) {
            Some(frame) => frame,
            None => match Self::anchored(unit) {
                Some(frame) => frame,
                None => *self,
            },
        }
    }
}

/// The samples of the ring that a disc has by default.
pub const DEFAULT_RING: usize = 12;

/// The angle (rad) of a ring sample: the ring's samples share a full turn evenly.
pub fn ring_angle(index: usize, ring: usize) -> (angle: F32)
    ensures
        angle == (F32 { bits: 0x40c9_0fdb }).product(F32::whole(index as nat)).quotient(F32::whole(ring as nat)),
{
    (F32 { bits: 0x40c9_0fdb }).times(F32::from_whole(index as u64)).over(F32::from_whole(ring as u64))
}

/// The offset of one ring sample, its angle given by cosine and sine.
pub open spec fn ring_offset(frame: DiscFrame, radius: F32, turn: (F32, F32)) -> Vec3 {
    frame.u.scaled(turn.0).sum(frame.v.scaled(turn.1)).scaled(radius)
}

/// The disc's sample offsets: the axis, then one ring sample for each angle, given
/// by its cosine and sine.
pub fn disc_offsets(frame: &DiscFrame, radius: F32, turns: &Vec<(F32, F32)>) -> (offsets: Vec<Vec3>)
    ensures
        offsets@.len() == turns@.len() + 1,
        offsets@[0] == Vec3::zero(),
        forall|i: int| 0 <= i < turns@.len() ==> #[trigger] offsets@[i + 1] == ring_offset(*frame, radius, turns@[i]),
{
    let mut offsets: Vec<Vec3> = Vec::new();
    offsets.push(Vec3::zero());
    let mut i: usize = 0;
    while i < turns.len()
        invariant
            i <= turns.len(),
            offsets@.len() == i + 1,
            offsets@[0] == Vec3::zero(),
            forall|j: int| 0 <= j < i ==> #[trigger] offsets@[j + 1] == ring_offset(*frame, radius, turns@[j]),
        decreases turns.len() - i,
    {
        let (cos, sin) = turns[i];
        offsets.push(frame.u.times(cos).plus(frame.v.times(sin)).times(radius));
        i = i + 1;
    }
    offsets
}

/// One sample ray of a disc.
#[derive(Clone, Debug, PartialEq)]
pub struct SampleCorridor {
    pub offset: Vec3,
    pub initial_presence: Vec<ShellKey>,
    pub hits: Vec<FaceHit>,
}

/// The probe: parallel sample corridors, the first one on the axis.
#[derive(Clone, Debug, PartialEq)]
pub struct DiscCorridor {
    /// The world position that every other position here is measured from.
    pub anchor: Vec3,
    /// The corridor's start, relative to the anchor.
    pub origin: Vec3,
    pub axis: Vec3,
    pub length: F32,
    pub radius: F32,
    pub frame: DiscFrame,
    pub samples: Vec<SampleCorridor>,
}

/// A downward step aggregated over the disc: one source of spall.
#[derive(Clone, Copy, Debug, PartialEq, Eq, Structural)]
pub struct DiscSpall {
    pub t: F64,
    pub position: Vec3,
    pub normal: Vec3,
    pub from_factor: F32,
    pub to_factor: F32,
    /// The contributing samples' budgets over all the disc's samples.
    pub budget: F32,
    /// The share of the disc that saw this step.
    pub coverage: F32,
}

/// The disc's mean cost, cumulated over progress.
#[derive(Clone, Debug, PartialEq)]
pub struct CostProfile {
    pub ts: Vec<F64>,
    pub cumulative: Vec<F64>,
}

impl CostProfile {
    pub open spec fn spec_total(self) -> F64 {
        if self.cumulative@.len() == 0 {
            F64::zero()
        } else {
            self.cumulative@.last()
        }
    }

    /// The first place from `i` on whose cumulated cost is at least the budget.
    pub open spec fn reaching(self, budget: F64, i: int) -> int
        decreases self.ts@.len() - i,
    {
        if i < self.ts@.len() && !budget.at_most(self.cumulative@[i]) {
            self.reaching(budget, i + 1)
        } else {
            i
        }
    }

    /// Where between places `i - 1` and `i` the budget is met, in proportion; never past
    /// place `i`.
    pub open spec fn met_within(self, budget: F64, i: int) -> F64 {
        let a = self.ts@[i - 1];
        let b = self.ts@[i];
        let slice = self.cumulative@[i].difference(self.cumulative@[i - 1]);
        a.sum(b.difference(a).product(budget.difference(self.cumulative@[i - 1]).quotient(slice))).smaller(b)
    }

    /// The progress at which the cost first reaches the budget; none where the
    /// whole profile costs less than it.
    pub open spec fn spec_invert(self, budget: F64) -> Option<F64> {
        let i = self.reaching(budget, 0);
        if self.spec_total().below(budget) || self.ts@.len() == 0 {
            None
        } else if i >= self.ts@.len() {
            Some(self.ts@.last())
        } else if i == 0 || self.cumulative@[i].equals(budget) {
            Some(self.ts@[i])
        } else {
            Some(self.met_within(budget, i))
        }
    }

    /// The profile holds a cumulated cost for each progress.
    pub open spec fn wf(self) -> bool {
        self.ts@.len() <= self.cumulative@.len()
    }

    pub fn total(&self) -> (total: F64)
        ensures
            total == self.spec_total(),
    {
        if self.cumulative.len() == 0 {
            F64::zero()
        } else {
            self.cumulative[self.cumulative.len() - 1]
        }
    }

    /// The progress at which the cost first reaches the budget; none where the whole
    /// profile costs less.
    pub fn invert(&self, budget: F64) -> (t: Option<F64>)
        requires
            self.wf(),
        ensures
            t == self.spec_invert(budget),
    {
        if self.total().lt(budget) || self.ts.len() == 0 {
            return None;
        }
        let mut i: usize = 0;
        while i < self.ts.len()
            invariant
                self.wf(),
                i <= self.ts.len(),
                self.ts@.len() > 0,
                self.reaching(budget, 0) == self.reaching(budget, i as int),
                !self.spec_total().below(budget),
            decreases self.ts.len() - i,
        {
            if budget.le(self.cumulative[i]) {
                if i == 0 || self.cumulative[i].same(budget) {
                    return Some(self.ts[i]);
                }
                let a: F64 = self.ts[i - 1];
                let b: F64 = self.ts[i];
                let slice: F64 = self.cumulative[i].minus(self.cumulative[i - 1]);
                let share: F64 = budget.minus(self.cumulative[i - 1]).over(slice);
                return Some(a.plus(b.minus(a).times(share)).min(b));
            }
            i = i + 1;
        }
        Some(self.ts[self.ts.len() - 1])
    }

    /// The whole profile times a factor.
    pub fn scaled(&self, factor: F64) -> (profile: CostProfile)
        ensures
            profile.ts@ == self.ts@,
            profile.cumulative@.len() == self.cumulative@.len(),
            forall|i: int|
                0 <= i < self.cumulative@.len() ==> #[trigger] profile.cumulative@[i] == self.cumulative@[i].product(
                    factor,
                ),
    {
        let mut ts: Vec<F64> = Vec::new();
        let mut i: usize = 0;
        while i < self.ts.len()
            invariant
                i <= self.ts.len(),
                ts@ == self.ts@.take(i as int),
            decreases self.ts.len() - i,
        {
            ts.push(self.ts[i]);
            assert(self.ts@.take(i + 1) =~= self.ts@.take(i as int).push(self.ts@[i as int]));
            i = i + 1;
        }
        assert(self.ts@.take(i as int) =~= self.ts@);
        let mut cumulative: Vec<F64> = Vec::new();
        let mut n: usize = 0;
        while n < self.cumulative.len()
            invariant
                n <= self.cumulative.len(),
                cumulative@.len() == n,
                forall|j: int| 0 <= j < n ==> #[trigger] cumulative@[j] == self.cumulative@[j].product(factor),
            decreases self.cumulative.len() - n,
        {
            cumulative.push(self.cumulative[n].times(factor));
            n = n + 1;
        }
        CostProfile { ts, cumulative }
    }
}

/// One volume's share of a disc crossing.
#[derive(Clone, Debug, PartialEq)]
pub struct EntityShare {
    pub entity: Entity,
    pub factor: F32,
    /// The covered chords over all the disc's samples.
    pub chord: F32,
    /// The chord charged at the volume's own factor.
    pub cost: F32,
    /// The share of the disc that met the volume.
    pub coverage: F32,
    /// Each sample's presence, for clipping where a round stops.
    pub spans: Vec<(F64, F64)>,
}

/// One crossing of the world by the disc.
#[derive(Clone, Debug, PartialEq)]
pub struct DiscEvent {
    pub start: F64,
    pub end: F64,
    /// The mean entry normal over the covered samples.
    pub entry_normal: Vec3,
    pub entry_position: Vec3,
    pub exit_normal: Vec3,
    pub exit_position: Vec3,
    /// The covered samples over all of them.
    pub coverage: F32,
    pub exit_coverage: F32,
    /// The volume first touched.
    pub entrance_volume: Entity,
    /// Every primitive touched, in order.
    pub primitives: Vec<PrimitiveKey>,
    pub cost: F32,
    pub profile: CostProfile,
    pub spall: Vec<DiscSpall>,
    pub shares: Vec<EntityShare>,
}

/// One sample's starting state: where its ray resumes, and what it is already inside.
#[derive(Clone, Debug, PartialEq)]
pub struct SampleSeed {
    pub sample: usize,
    /// The ray's origin, relative to the corridor's.
    pub offset: Vec3,
    /// The progress along the walked ray at which the seed was read.
    pub t: F64,
    pub inside: Vec<ShellKey>,
}

/// Every crossing the disc met, in order.
#[derive(Clone, Debug, PartialEq)]
pub struct DiscWalk {
    pub axis: Vec3,
    pub anchor: Vec3,
    pub origin: Vec3,
    pub frame: DiscFrame,
    pub radius: F32,
    /// The lateral offset of each sample.
    pub offsets: Vec<Vec3>,
    /// Each sample's walk.
    pub walks: Vec<RayWalk>,
    pub events: Vec<DiscEvent>,
}

impl DiscWalk {
    /// There is an offset for each sample.
    pub open spec fn wf(self) -> bool {
        self.offsets@.len() == self.walks@.len()
    }

    /// How many samples the disc aggregates over.
    pub fn samples(&self) -> (count: usize)
        ensures
            count == self.walks@.len(),
    {
        self.walks.len()
    }

    /// The seed of one sample for a corridor resumed at `t`.
    pub open spec fn is_seed(self, seed: SampleSeed, sample: int, t: F64, laws: WalkLaws) -> bool {
        &&& seed.sample == sample
        &&& seed.offset == self.offsets@[sample]
        &&& seed.t == t
        &&& seed.inside@ == ray::inside_upto(
            self.walks@[sample].shells@,
            t,
            laws,
            self.walks@[sample].shells@.len() as int,
        )
    }

    /// The state a corridor resumed at progress `t` starts from, sample by sample:
    /// a lookup on rays already walked, never an inference.
    pub fn resume_at(&self, t: F64, laws: &WalkLaws) -> (seeds: Vec<SampleSeed>)
        requires
            self.wf(),
        ensures
            seeds@.len() == self.walks@.len(),
            forall|i: int| 0 <= i < seeds@.len() ==> self.is_seed(#[trigger] seeds@[i], i, t, *laws),
    {
        let mut seeds: Vec<SampleSeed> = Vec::new();
        let mut sample: usize = 0;
        while sample < self.walks.len()
            invariant
                sample <= self.walks.len(),
                self.wf(),
                seeds@.len() == sample,
                forall|i: int| 0 <= i < sample ==> self.is_seed(#[trigger] seeds@[i], i, t, *laws),
            decreases self.walks.len() - sample,
        {
            seeds.push(
                SampleSeed {
                    sample,
                    offset: self.offsets[sample],
                    t,
                    inside: self.walks[sample].inside_at(t, laws),
                },
            );
            sample = sample + 1;
        }
        seeds
    }
}

} // verus!
