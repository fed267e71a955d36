//! What a run finds, and what has been decided about it.

use crate::ballistics::walk::vocabulary::{Entity, PrimitiveKey, WalkError};
use crate::float::F32;
use crate::text::{starts_with, Table};
use crate::vector::Vec3;
use vstd::prelude::*;

verus! {

/// A gun that every opening is measured against.
#[derive(Clone, Copy, Debug, PartialEq, Eq)]
pub struct ProbeRound {
    pub name: &'static str,
    /// Metres.
    pub caliber: F32,
    /// Kilograms.
    pub mass: F32,
    /// The striking speed (m/s), at the muzzle.
    pub speed: F32,
}

/// How many guns there are.
pub const PROBE_COUNT: usize = 7;

/// The guns by rising calibre: the first that gets through names an opening.
pub open spec fn rounds() -> Seq<ProbeRound> {
    seq![
        ProbeRound {
            name: "7.92mm",
            caliber: F32 { bits: 0x3c01_6f00 },
            mass: F32 { bits: 0x3c41_54ca },
            speed: F32 { bits: 0x443c_c000 },
        },
        ProbeRound {
            name: "20mm",
            caliber: F32 { bits: 0x3ca3_d70a },
            mass: F32 { bits: 0x3e17_8d50 },
            speed: F32 { bits: 0x444f_8000 },
        },
        ProbeRound {
            name: "37mm",
            caliber: F32 { bits: 0x3d17_8d50 },
            mass: F32 { bits: 0x3f2f_5c29 },
            speed: F32 { bits: 0x443e_8000 },
        },
        ProbeRound {
            name: "57mm",
            caliber: F32 { bits: 0x3d69_78d5 },
            mass: F32 { bits: 0x4037_ae14 },
            speed: F32 { bits: 0x444b_c000 },
        },
        ProbeRound {
            name: "75mm",
            caliber: F32 { bits: 0x3d99_999a },
            mass: F32 { bits: 0x40d9_999a },
            speed: F32 { bits: 0x4445_8000 },
        },
        ProbeRound {
            name: "88mm",
            caliber: F32 { bits: 0x3db4_3958 },
            mass: F32 { bits: 0x4123_3333 },
            speed: F32 { bits: 0x4441_4000 },
        },
        ProbeRound {
            name: "122mm",
            caliber: F32 { bits: 0x3df9_db23 },
            mass: F32 { bits: 0x41c8_0000 },
            speed: F32 { bits: 0x4446_c000 },
        },
    ]
}

pub fn probe_rounds() -> (list: Vec<ProbeRound>)
    ensures
        list@ == rounds(),
        list@.len() == PROBE_COUNT,
{
    let mut list: Vec<ProbeRound> = Vec::new();
    list.push(
        ProbeRound {
            name: "7.92mm",
            caliber: F32 { bits: 0x3c01_6f00 },
            mass: F32 { bits: 0x3c41_54ca },
            speed: F32 { bits: 0x443c_c000 },
        },
    );
    list.push(
        ProbeRound {
            name: "20mm",
            caliber: F32 { bits: 0x3ca3_d70a },
            mass: F32 { bits: 0x3e17_8d50 },
            speed: F32 { bits: 0x444f_8000 },
        },
    );
    list.push(
        ProbeRound {
            name: "37mm",
            caliber: F32 { bits: 0x3d17_8d50 },
            mass: F32 { bits: 0x3f2f_5c29 },
            speed: F32 { bits: 0x443e_8000 },
        },
    );
    list.push(
        ProbeRound {
            name: "57mm",
            caliber: F32 { bits: 0x3d69_78d5 },
            mass: F32 { bits: 0x4037_ae14 },
            speed: F32 { bits: 0x444b_c000 },
        },
    );
    list.push(
        ProbeRound {
            name: "75mm",
            caliber: F32 { bits: 0x3d99_999a },
            mass: F32 { bits: 0x40d9_999a },
            speed: F32 { bits: 0x4445_8000 },
        },
    );
    list.push(
        ProbeRound {
            name: "88mm",
            caliber: F32 { bits: 0x3db4_3958 },
            mass: F32 { bits: 0x4123_3333 },
            speed: F32 { bits: 0x4441_4000 },
        },
    );
    list.push(
        ProbeRound {
            name: "122mm",
            caliber: F32 { bits: 0x3df9_db23 },
            mass: F32 { bits: 0x41c8_0000 },
            speed: F32 { bits: 0x4446_c000 },
        },
    );
    list
}

/// The guns rise by calibre.
pub proof fn law_rounds_rise(i: int, j: int)
    requires
        0 <= i < j < rounds().len(),
    ensures
        rounds()[i].caliber.below(rounds()[j].caliber),
{
    rounds()[i].caliber.lemma_order_of_bits(rounds()[j].caliber);
}

/// What a corridor reached.
#[derive(Clone, Copy, Debug, PartialEq, Eq, PartialOrd, Ord, Hash, Structural)]
pub enum TargetKind {
    Crew,
    Ammo,
}

impl TargetKind {
    pub fn label(self) -> (label: &'static str)
        ensures
            label@ == match self {
                TargetKind::Crew => "crew"@,
                TargetKind::Ammo => "ammo"@,
            },
    {
        match self {
            TargetKind::Crew => "crew",
            TargetKind::Ammo => "ammo",
        }
    }
}

/// One gun's measurement of one opening.
#[derive(Clone, Copy, Debug, PartialEq, Eq, Structural)]
pub struct RoundMeasurement {
    /// The share of the disc that met something at the entrance.
    pub eta: F32,
    /// The disc's mean cost up to the target's face.
    pub cost: F32,
    /// What the round can spend.
    pub capability: F32,
}

impl RoundMeasurement {
    pub open spec fn passes(self) -> bool {
        self.cost.at_most(self.capability)
    }

    /// The round gets through.
    pub fn admits(&self) -> (yes: bool)
        ensures
            yes == self.passes(),
    {
        self.cost.le(self.capability)
    }
}

/// The first measurement that gets through, from `i` on.
pub open spec fn first_passing(measurements: Seq<RoundMeasurement>, i: int) -> Option<usize>
    decreases measurements.len() - i,
{
    if i < 0 || i >= measurements.len() {
        None
    } else if measurements[i].passes() {
        Some(i as usize)
    } else {
        first_passing(measurements, i + 1)
    }
}

/// The round that an opening admits is the smallest: its cost is within its capability, and that of
/// no round before it is; where none is admitted, no round's is.
pub proof fn law_the_smallest_round_is_admitted(measurements: Seq<RoundMeasurement>)
    requires
        measurements.len() <= usize::MAX,
    ensures
        match first_passing(measurements, 0) {
            Some(i) => {
                &&& i < measurements.len()
                &&& measurements[i as int].cost.at_most(measurements[i as int].capability)
                &&& forall|j: int|
                    0 <= j < i ==> !(#[trigger] measurements[j]).cost.at_most(measurements[j].capability)
            },
            None => forall|j: int|
                0 <= j < measurements.len() ==> !(#[trigger] measurements[j]).cost.at_most(measurements[j].capability),
        },
{
    lemma_first_passing(measurements, 0);
}

proof fn lemma_first_passing(measurements: Seq<RoundMeasurement>, from: int)
    requires
        0 <= from <= measurements.len() <= usize::MAX,
    ensures
        match first_passing(measurements, from) {
            Some(i) => {
                &&& from <= i < measurements.len()
                &&& measurements[i as int].passes()
                &&& forall|j: int| from <= j < i ==> !(#[trigger] measurements[j]).passes()
            },
            None => forall|j: int| from <= j < measurements.len() ==> !(#[trigger] measurements[j]).passes(),
        },
    decreases measurements.len() - from,
{
    if from < measurements.len() && !measurements[from].passes() {
        lemma_first_passing(measurements, from + 1);
    }
}

/// The smallest round that gets through.
pub fn admitting_round(measurements: &Vec<RoundMeasurement>) -> (first: Option<usize>)
    ensures
        first == first_passing(measurements@, 0),
        first matches Some(i) ==> i < measurements@.len() && measurements@[i as int].cost.at_most(
            measurements@[i as int].capability,
        ),
        forall|j: int|
            0 <= j < measurements@.len() && (first matches Some(i) ==> j < i) ==> !(
            #[trigger] measurements@[j]).cost.at_most(measurements@[j].capability),
{
    let mut i: usize = 0;
    while i < measurements.len()
        invariant
            i <= measurements@.len(),
            first_passing(measurements@, 0) == first_passing(measurements@, i as int),
        decreases measurements.len() - i,
    {
        if measurements[i].admits() {
            proof {
                assert(measurements.len() == measurements@.len());
                law_the_smallest_round_is_admitted(measurements@);
            }
            return Some(i);
        }
        i = i + 1;
    }
    proof {
        assert(measurements.len() == measurements@.len());
        law_the_smallest_round_is_admitted(measurements@);
    }
    None
}

/// One opening: the findings of one kind that come in through one cell.
pub struct Region {
    /// The cell of the target's own frame.
    pub cell: (i32, i32, i32),
    /// Where the witness pierced the target's box.
    pub entry_local: Vec3,
    /// The witness's direction in the target's frame.
    pub axis_local: Vec3,
    /// The names of what was reached.
    pub targets: Table<()>,
    pub kind: TargetKind,
    pub rays: u64,
    /// The cheapest cost to a target.
    pub min_axis_cost: F32,
    /// One measurement for each gun.
    pub measurements: Vec<RoundMeasurement>,
    /// The smallest gun that gets through.
    pub admitting: Option<usize>,
    /// The ray that was measured.
    pub witness_ray: u64,
}

impl Region {
    /// The gun that gets through is one of the guns.
    pub open spec fn wf(self) -> bool {
        self.admitting matches Some(i) ==> i < PROBE_COUNT
    }

    /// The calibre of the smallest round that gets through.
    pub fn admitting_caliber(&self) -> (caliber: Option<F32>)
        requires
            self.wf(),
        ensures
            caliber == match self.admitting {
                Some(i) => Some(rounds()[i as int].caliber),
                None => None,
            },
    {
        match self.admitting {
            Some(i) => Some(probe_rounds()[i].caliber),
            None => None,
        }
    }
}

/// An invariant that did not hold.
#[derive(Clone, Copy, Debug, PartialEq, Eq, Structural)]
pub enum ViolationKind {
    /// Material was crossed and no step was reported.
    SilentPenetration { cost: F32 },
    /// No material was crossed and steps were reported.
    FabricatedEvent { events: usize },
    /// A volume's copy changed the cost.
    DuplicationChangedCost { volume: Entity, before: F32, after: F32 },
    /// A volume's copy at twice the factor lowered the cost.
    DuplicationLoweredCost { volume: Entity, before: F32, after: F32 },
}

#[derive(Clone, Copy, Debug, PartialEq, Eq, Structural)]
pub struct Violation {
    pub ray: u64,
    pub kind: ViolationKind,
}

/// A ray that could not be walked.
#[derive(Clone, Debug, PartialEq)]
pub struct WalkFailure {
    pub ray: u64,
    pub origin: Vec3,
    pub direction: Vec3,
    /// The name of the volume to blame.
    pub volume: String,
    pub error: WalkError,
    /// Every crossing of the primitive to blame, by distance: where it is, and the
    /// axis along its normal, below zero going in.
    pub crossings: Vec<(crate::float::F64, F32)>,
}

/// The volume that an error blames.
pub open spec fn blamed(error: WalkError) -> Option<Entity> {
    match error {
        WalkError::BadFactor { volume, factor: _ } => Some(volume),
        WalkError::UnknownVolume { volume } => Some(volume),
        WalkError::CollectorFailed { volume, reason: _ } => Some(volume),
        WalkError::CorridorOverflow { volume, collected: _, limit: _ } => Some(volume),
        WalkError::UnexpectedExit { sample: _, key, t: _, triangles: _ } => Some(key.volume),
        WalkError::UnexpectedEntry { sample: _, key, t: _, triangles: _ } => Some(key.volume),
        WalkError::UnrepresentableChord { sample: _, key, t: _, triangles: _ } => Some(key.volume),
        WalkError::IncompleteCorridor { sample: _, open, length: _ } => if open@.len() > 0 {
            Some(open@[0].volume)
        } else {
            None
        },
        WalkError::BadCorridor { sample: _, reason: _ } => None,
        WalkError::CorridorMismatch { reason: _ } => None,
        WalkError::DegenerateEntryNormal { coverage: _ } => None,
    }
}

pub fn blamed_volume(error: &WalkError) -> (volume: Option<Entity>)
    ensures
        volume == blamed(*error),
{
    match error {
        WalkError::BadFactor { volume, factor: _ } => Some(*volume),
        WalkError::UnknownVolume { volume } => Some(*volume),
        WalkError::CollectorFailed { volume, reason: _ } => Some(*volume),
        WalkError::CorridorOverflow { volume, collected: _, limit: _ } => Some(*volume),
        WalkError::UnexpectedExit { sample: _, key, t: _, triangles: _ } => Some(key.volume),
        WalkError::UnexpectedEntry { sample: _, key, t: _, triangles: _ } => Some(key.volume),
        WalkError::UnrepresentableChord { sample: _, key, t: _, triangles: _ } => Some(key.volume),
        WalkError::IncompleteCorridor { sample: _, open, length: _ } => if open.len() > 0 {
            Some(open[0].volume)
        } else {
            None
        },
        WalkError::BadCorridor { sample: _, reason: _ } => None,
        WalkError::CorridorMismatch { reason: _ } => None,
        WalkError::DegenerateEntryNormal { coverage: _ } => None,
    }
}

/// The primitive that an error blames, where it is about one.
pub open spec fn blamed_key(error: WalkError) -> Option<PrimitiveKey> {
    match error {
        WalkError::UnexpectedExit { sample: _, key, t: _, triangles: _ } => Some(key.spec_primitive_key()),
        WalkError::UnexpectedEntry { sample: _, key, t: _, triangles: _ } => Some(key.spec_primitive_key()),
        WalkError::UnrepresentableChord { sample: _, key, t: _, triangles: _ } => Some(key.spec_primitive_key()),
        WalkError::IncompleteCorridor { sample: _, open, length: _ } => if open@.len() > 0 {
            Some(open@[0].spec_primitive_key())
        } else {
            None
        },
        _ => None,
    }
}

pub fn blamed_primitive(error: &WalkError) -> (key: Option<PrimitiveKey>)
    ensures
        key == blamed_key(*error),
{
    match error {
        WalkError::UnexpectedExit { sample: _, key, t: _, triangles: _ } => Some(key.primitive_key()),
        WalkError::UnexpectedEntry { sample: _, key, t: _, triangles: _ } => Some(key.primitive_key()),
        WalkError::UnrepresentableChord { sample: _, key, t: _, triangles: _ } => Some(key.primitive_key()),
        WalkError::IncompleteCorridor { sample: _, open, length: _ } => if open.len() > 0 {
            Some(open[0].primitive_key())
        } else {
            None
        },
        _ => None,
    }
}

/// A primitive is blamed only along with its volume.
pub proof fn law_blame_agrees(error: WalkError)
    ensures
        blamed_key(error) matches Some(key) ==> blamed(error) == Some(key.volume),
{
}

/// The volumes whose shells are known to overlap inside one primitive.
pub open spec fn is_multi_shell(volume: Seq<char>) -> bool {
    "Hull_Rear"@.is_prefix_of(volume) || "Turret_Cupola"@.is_prefix_of(volume) || "Wheel_"@.is_prefix_of(volume)
}

/// Whether an error on this volume is explained by its overlapping shells.
pub fn is_known_multi_shell(volume: &str) -> (yes: bool)
    ensures
        yes == is_multi_shell(volume@),
{
    starts_with(volume, "Hull_Rear") || starts_with(volume, "Turret_Cupola") || starts_with(volume, "Wheel_")
}

/// Everything that one run learned.
pub struct Report {
    pub seed: u64,
    pub rays: u64,
    /// The rays that crossed material.
    pub rays_crossing: u64,
    pub duplication_checks: u64,
    pub violations: Vec<Violation>,
    pub walk_errors: Vec<WalkFailure>,
    /// The openings, the cheapest first.
    pub regions: Vec<Region>,
    /// The cheapest cost to each target, finding or not.
    pub min_reach: Table<F32>,
    /// How many failures each volume was blamed for.
    pub walk_error_volumes: Table<u64>,
    /// How many rays crossed each volume.
    pub presence_census: Table<u64>,
    /// The region list is not exhaustive.
    pub sweeps_truncated: bool,
    /// The sphere that the rays were aimed at.
    pub center: Vec3,
    pub radius: F32,
}

/// The places of the failures among the first `n` that nothing explains.
pub open spec fn unexplained(failures: Seq<WalkFailure>, n: int) -> Seq<usize>
    decreases n,
{
    if n <= 0 {
        Seq::empty()
    } else if is_multi_shell(failures[n - 1].volume@) {
        unexplained(failures, n - 1)
    } else {
        unexplained(failures, n - 1).push((n - 1) as usize)
    }
}

impl Report {
    /// The places of the failures that nothing explains.
    pub fn unexplained_walk_errors(&self) -> (places: Vec<usize>)
        ensures
            places@ == unexplained(self.walk_errors@, self.walk_errors@.len() as int),
    {
        let mut places: Vec<usize> = Vec::new();
        let mut n: usize = 0;
        while n < self.walk_errors.len()
            invariant
                n <= self.walk_errors@.len(),
                places@ == unexplained(self.walk_errors@, n as int),
            decreases self.walk_errors.len() - n,
        {
            if !is_known_multi_shell(self.walk_errors[n].volume.as_str()) {
                places.push(n);
            }
            n = n + 1;
        }
        places
    }

    /// No invariant was broken and nothing is unexplained.
    pub open spec fn clean(self) -> bool {
        self.violations@.len() == 0 && unexplained(self.walk_errors@, self.walk_errors@.len() as int).len() == 0
    }

    pub fn is_clean(&self) -> (yes: bool)
        ensures
            yes == self.clean(),
    {
        self.violations.len() == 0 && self.unexplained_walk_errors().len() == 0
    }
}

proof fn lemma_unexplained(failures: Seq<WalkFailure>, n: int)
    requires
        0 <= n <= failures.len(),
    ensures
        unexplained(failures, n).len() == 0 <==> forall|i: int|
            0 <= i < n ==> is_multi_shell((#[trigger] failures[i]).volume@),
    decreases n,
{
    if n > 0 {
        lemma_unexplained(failures, n - 1);
        if unexplained(failures, n).len() == 0 {
            assert forall|i: int| 0 <= i < n implies is_multi_shell((#[trigger] failures[i]).volume@) by {}
        }
    }
}

/// A report is clean exactly where no invariant was broken and every failure is on a
/// volume known for its overlapping shells.
pub proof fn law_clean_means_explained(report: Report)
    ensures
        report.clean() <==> report.violations@.len() == 0 && forall|i: int|
            0 <= i < report.walk_errors@.len() ==> is_multi_shell((#[trigger] report.walk_errors@[i]).volume@),
{
    lemma_unexplained(report.walk_errors@, report.walk_errors@.len() as int);
}

/// One opening that was decided on.
#[derive(Clone, Debug, PartialEq)]
pub struct Blessing {
    pub name: String,
    /// The middle of what it covers, in the target's frame.
    pub center: Vec3,
    /// How far around (m) it covers.
    pub radius: F32,
    /// The smallest calibre measured to get through; a record, not a limit.
    pub admits: F32,
    pub reason: String,
}

impl Blessing {
    pub open spec fn reaches(self, point: Vec3) -> bool {
        point.difference(self.center).norm().at_most(self.radius)
    }

    pub fn covers(&self, point: Vec3) -> (yes: bool)
        ensures
            yes == self.reaches(point),
    {
        point.minus(self.center).length().le(self.radius)
    }
}

/// The openings that were decided on.
#[derive(Clone, Debug, PartialEq)]
pub struct BlessList {
    pub openings: Vec<Blessing>,
}

/// The verdict on a report.
#[derive(Clone, Debug, PartialEq)]
pub struct Verdict {
    /// The places of the regions that nobody decided about.
    pub unblessed: Vec<usize>,
    /// The names of the blessings that no region came in through.
    pub stale: Vec<String>,
}

/// Some opening covers the point.
pub open spec fn is_blessed(openings: Seq<Blessing>, point: Vec3) -> bool {
    exists|i: int| 0 <= i < openings.len() && (#[trigger] openings[i]).reaches(point)
}

/// Some region came in through the opening.
pub open spec fn is_met(opening: Blessing, regions: Seq<Region>) -> bool {
    exists|i: int| 0 <= i < regions.len() && opening.reaches((#[trigger] regions[i]).entry_local)
}

/// The places of the regions among the first `n` that no opening covers.
pub open spec fn unblessed_upto(regions: Seq<Region>, openings: Seq<Blessing>, n: int) -> Seq<usize>
    decreases n,
{
    if n <= 0 {
        Seq::empty()
    } else if is_blessed(openings, regions[n - 1].entry_local) {
        unblessed_upto(regions, openings, n - 1)
    } else {
        unblessed_upto(regions, openings, n - 1).push((n - 1) as usize)
    }
}

/// The names of the openings among the first `n` that no region came in through.
pub open spec fn stale_upto(openings: Seq<Blessing>, regions: Seq<Region>, n: int) -> Seq<Seq<char>>
    decreases n,
{
    if n <= 0 {
        Seq::empty()
    } else if is_met(openings[n - 1], regions) {
        stale_upto(openings, regions, n - 1)
    } else {
        stale_upto(openings, regions, n - 1).push(openings[n - 1].name@)
    }
}

/// The regions told of are those, in order, whose entry lies in no opening: further from every
/// opening's centre than its radius.
pub proof fn law_every_unblessed_region_is_told(regions: Seq<Region>, openings: Seq<Blessing>, n: int)
    requires
        0 <= n <= regions.len(),
        regions.len() <= usize::MAX,
    ensures
        forall|k: int, l: int|
            0 <= k < l < unblessed_upto(regions, openings, n).len() ==> #[trigger] unblessed_upto(regions, openings, n)[k]
                < #[trigger] unblessed_upto(regions, openings, n)[l],
        forall|k: int|
            0 <= k < unblessed_upto(regions, openings, n).len() ==> #[trigger] unblessed_upto(regions, openings, n)[k] < n,
        forall|i: usize| #[trigger]
            unblessed_upto(regions, openings, n).contains(i) <==> i < n && forall|o: int|
                0 <= o < openings.len() ==> !regions[i as int].entry_local.difference(
                    (#[trigger] openings[o]).center,
                ).norm().at_most(openings[o].radius),
    decreases n,
{
    if n > 0 {
        law_every_unblessed_region_is_told(regions, openings, n - 1);
        let before = unblessed_upto(regions, openings, n - 1);
        let entry = regions[n - 1].entry_local;
        if is_blessed(openings, entry) {
            let o = choose|o: int| 0 <= o < openings.len() && (#[trigger] openings[o]).reaches(entry);
            assert(entry.difference(openings[o].center).norm().at_most(openings[o].radius));
        } else {
            assert forall|o: int| 0 <= o < openings.len() implies !entry.difference(
                (#[trigger] openings[o]).center,
            ).norm().at_most(openings[o].radius) by {
                assert(!openings[o].reaches(entry));
            }
            let last = (n - 1) as usize;
            let more = before.push(last);
            assert(more[before.len() as int] == last);
            assert forall|i: usize| before.contains(i) implies #[trigger] more.contains(i) by {
                let k = before.index_of(i);
                assert(more[k] == i);
            }
            assert forall|i: usize| #[trigger] more.contains(i) implies before.contains(i) || i == last by {
                let k = more.index_of(i);
                if k < before.len() {
                    assert(before[k] == i);
                }
            }
        }
    }
}

/// An opening's name is told exactly where some opening of that name lets no region's entry in.
pub proof fn law_every_stale_opening_is_told(openings: Seq<Blessing>, regions: Seq<Region>, n: int, name: Seq<char>)
    requires
        0 <= n <= openings.len(),
    ensures
        stale_upto(openings, regions, n).contains(name) <==> exists|o: int|
            {
                &&& 0 <= o < n
                &&& (#[trigger] openings[o]).name@ == name
                &&& forall|r: int|
                    0 <= r < regions.len() ==> !(#[trigger] regions[r]).entry_local.difference(
                        openings[o].center,
                    ).norm().at_most(openings[o].radius)
            },
    decreases n,
{
    if n > 0 {
        law_every_stale_opening_is_told(openings, regions, n - 1, name);
        let before = stale_upto(openings, regions, n - 1);
        let last = openings[n - 1];
        if is_met(last, regions) {
            let r = choose|r: int| 0 <= r < regions.len() && last.reaches((#[trigger] regions[r]).entry_local);
            assert(regions[r].entry_local.difference(last.center).norm().at_most(last.radius));
        } else {
            assert forall|r: int| 0 <= r < regions.len() implies !(#[trigger] regions[r]).entry_local.difference(
                last.center,
            ).norm().at_most(last.radius) by {
                assert(!last.reaches(regions[r].entry_local));
            }
            let more = before.push(last.name@);
            assert(more[before.len() as int] == last.name@);
            if before.contains(name) {
                let k = before.index_of(name);
                assert(more[k] == name);
            }
            if more.contains(name) {
                let k = more.index_of(name);
                if k < before.len() {
                    assert(before[k] == name);
                }
            }
        }
    }
}

/// Whether some opening covers the point.
pub fn blessing_of(openings: &Vec<Blessing>, point: Vec3) -> (place: Option<usize>)
    ensures
        match place {
            Some(i) => i < openings@.len() && openings@[i as int].reaches(point) && forall|j: int|
                0 <= j < i ==> !(#[trigger] openings@[j]).reaches(point),
            None => !is_blessed(openings@, point),
        },
{
    let mut i: usize = 0;
    while i < openings.len()
        invariant
            i <= openings@.len(),
            forall|j: int| 0 <= j < i ==> !(#[trigger] openings@[j]).reaches(point),
        decreases openings.len() - i,
    {
        if openings[i].covers(point) {
            return Some(i);
        }
        i = i + 1;
    }
    None
}

fn is_opening_met(opening: &Blessing, regions: &Vec<Region>) -> (yes: bool)
    ensures
        yes == is_met(*opening, regions@),
{
    let mut i: usize = 0;
    while i < regions.len()
        invariant
            i <= regions@.len(),
            forall|j: int| 0 <= j < i ==> !opening.reaches((#[trigger] regions@[j]).entry_local),
        decreases regions.len() - i,
    {
        if opening.covers(regions[i].entry_local) {
            assert(opening.reaches(regions@[i as int].entry_local));
            return true;
        }
        i = i + 1;
    }
    false
}

/// Holds every region against the bless list.
pub fn adjudicate(report: &Report, bless: &BlessList) -> (verdict: Verdict)
    ensures
        verdict.unblessed@ == unblessed_upto(report.regions@, bless.openings@, report.regions@.len() as int),
        verdict.stale@.map_values(|name: String| name@) == stale_upto(
            bless.openings@,
            report.regions@,
            bless.openings@.len() as int,
        ),
{
    let mut unblessed: Vec<usize> = Vec::new();
    let mut n: usize = 0;
    while n < report.regions.len()
        invariant
            n <= report.regions@.len(),
            unblessed@ == unblessed_upto(report.regions@, bless.openings@, n as int),
        decreases report.regions.len() - n,
    {
        match blessing_of(&bless.openings, report.regions[n].entry_local) {
            Some(i) => {
                assert(bless.openings@[i as int].reaches(report.regions@[n as int].entry_local));
            },
            None => {
                unblessed.push(n);
            },
        }
        n = n + 1;
    }
    let mut stale: Vec<String> = Vec::new();
    let mut m: usize = 0;
    assert(stale@.map_values(|name: String| name@) =~= Seq::<Seq<char>>::empty());
    while m < bless.openings.len()
        invariant
            m <= bless.openings@.len(),
            stale@.map_values(|name: String| name@) == stale_upto(bless.openings@, report.regions@, m as int),
        decreases bless.openings.len() - m,
    {
        if !is_opening_met(&bless.openings[m], &report.regions) {
            let ghost before = stale@;
            stale.push(bless.openings[m].name.clone());
            assert(stale@.map_values(|name: String| name@) =~= before.map_values(|name: String| name@).push(
                bless.openings@[m as int].name@,
            ));
        }
        m = m + 1;
    }
    Verdict { unblessed, stale }
}

} // verus!
