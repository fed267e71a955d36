//! The rays of a run. Ray `i` depends on the seed and on `i` alone, so that a seed
//! and an index replay it.

use crate::float::F32;
use crate::vector::Vec3;
use vstd::prelude::*;

verus! {

/// Every knob of one run.
#[derive(Clone, Copy, Debug, PartialEq, Eq)]
pub struct FuzzConfig {
    pub seed: u64,
    pub rays: u64,
    /// The share of rays that are aimed over a wider disc, so that some meet nothing.
    pub miss_fraction: F32,
    /// Every so many rays one that crosses material runs the duplication gate; never
    /// where this is zero.
    pub duplication_stride: u64,
    /// The regions that get the sweep of every gun.
    pub max_region_sweeps: usize,
    /// The cost under which a corridor is a finding; the weakest gun's where there is none.
    pub finding_floor: Option<F32>,
}

impl FuzzConfig {
    pub open spec fn spec_default() -> FuzzConfig {
        FuzzConfig {
            seed: 0x0713_2026_0806,
            rays: 10_000,
            miss_fraction: F32 { bits: 0x3e19_999a },
            duplication_stride: 97,
            max_region_sweeps: 256,
            finding_floor: None,
        }
    }
}

impl Default for FuzzConfig {
    fn default() -> (config: FuzzConfig)
        ensures
            config == FuzzConfig::spec_default(),
    {
        FuzzConfig {
            seed: 0x0713_2026_0806,
            rays: 10_000,
            miss_fraction: F32 { bits: 0x3e19_999a },
            duplication_stride: 97,
            max_region_sweeps: 256,
            finding_floor: None,
        }
    }
}

/// The step between states.
pub const GAMMA: u64 = 0x9e37_79b9_7f4a_7c15;

/// A stream of numbers, started for one ray.
#[derive(Clone, Copy, Debug, PartialEq, Eq, Structural)]
pub struct Rng {
    pub state: u64,
}

/// The number that a state gives.
pub open spec fn mixed(state: u64) -> u64 {
    let a = (state ^ (state >> 30)).wrapping_mul(0xbf58_476d_1ce4_e5b9);
    let b = (a ^ (a >> 27)).wrapping_mul(0x94d0_49bb_1331_11eb);
    b ^ (b >> 31)
}

/// The upper 24 bits of a number, as a share of one.
pub open spec fn share(n: u64) -> F32 {
    F32::whole((n >> 40) as nat).quotient(F32 { bits: 0x4b80_0000 })
}

impl Rng {
    pub open spec fn started(seed: u64, ray: u64) -> Rng {
        Rng { state: seed ^ ray.wrapping_add(1).wrapping_mul(GAMMA) }
    }

    /// The state after so many numbers.
    pub open spec fn after(self, n: nat) -> Rng
        decreases n,
    {
        if n == 0 {
            self
        } else {
            Rng { state: self.after((n - 1) as nat).state.wrapping_add(GAMMA) }
        }
    }

    pub fn for_ray(seed: u64, ray: u64) -> (rng: Rng)
        ensures
            rng == Rng::started(seed, ray),
    {
        Rng { state: seed ^ ray.wrapping_add(1).wrapping_mul(GAMMA) }
    }

    pub fn next(&mut self) -> (n: u64)
        ensures
            *final(self) == old(self).after(1),
            n == mixed(final(self).state),
    {
        reveal_with_fuel(Rng::after, 2);
        self.state = self.state.wrapping_add(GAMMA);
        let z: u64 = self.state;
        let z: u64 = (z ^ (z >> 30)).wrapping_mul(0xbf58_476d_1ce4_e5b9);
        let z: u64 = (z ^ (z >> 27)).wrapping_mul(0x94d0_49bb_1331_11eb);
        z ^ (z >> 31)
    }

    /// A number from zero up to one.
    pub fn unit(&mut self) -> (x: F32)
        ensures
            *final(self) == old(self).after(1),
            x == share(mixed(final(self).state)),
    {
        let n: u64 = self.next();
        F32::from_whole(n >> 40).over(F32 { bits: 0x4b80_0000 })
    }
}

/// The numbers that one ray is made of.
#[derive(Clone, Copy, Debug, PartialEq, Eq, Structural)]
pub struct Draws {
    /// The third component of the direction.
    pub z: F32,
    /// The angle (rad) of the direction around the third axis.
    pub azimuth: F32,
    /// Under the miss fraction the ray is aimed wide.
    pub aim: F32,
    /// The square of the share of the disc's radius.
    pub reach: F32,
    /// The angle (rad) around the disc.
    pub angle: F32,
}

/// The `n`-th share that a ray draws.
pub open spec fn drawn(seed: u64, ray: u64, n: nat) -> F32 {
    share(mixed(Rng::started(seed, ray).after(n).state))
}

/// A whole turn (rad).
#[verifier::allow_in_spec]
pub fn tau() -> F32
    returns
        (F32 { bits: 0x40c9_0fdb }),
{
    F32 { bits: 0x40c9_0fdb }
}

/// The numbers of a ray: from the seed and its index, and from nothing else.
pub open spec fn draws_of(seed: u64, ray: u64) -> Draws {
    Draws {
        z: (F32 { bits: 0x4000_0000 }).product(drawn(seed, ray, 1)).difference(F32::one()),
        azimuth: tau().product(drawn(seed, ray, 2)),
        aim: drawn(seed, ray, 3),
        reach: drawn(seed, ray, 4),
        angle: tau().product(drawn(seed, ray, 5)),
    }
}

pub fn draws_for(seed: u64, ray: u64) -> (draws: Draws)
    ensures
        draws == draws_of(seed, ray),
{
    reveal_with_fuel(Rng::after, 6);
    let mut rng: Rng = Rng::for_ray(seed, ray);
    let z: F32 = (F32 { bits: 0x4000_0000 }).times(rng.unit()).minus(F32::one());
    let azimuth: F32 = tau().times(rng.unit());
    let aim: F32 = rng.unit();
    let reach: F32 = rng.unit();
    let angle: F32 = tau().times(rng.unit());
    Draws { z, azimuth, aim, reach, angle }
}

/// One shot line.
#[derive(Clone, Copy, Debug, PartialEq, Eq, Structural)]
pub struct FuzzRay {
    pub origin: Vec3,
    pub direction: Vec3,
    pub length: F32,
}

/// The vector over its length, or the third axis where that is no number.
pub open spec fn unit_or_z(v: Vec3) -> Vec3 {
    let reciprocal = F32::one().quotient(v.norm());
    if reciprocal.finite() && F32::zero().below(reciprocal) {
        v.scaled(reciprocal)
    } else {
        Vec3 { x: F32::zero(), y: F32::zero(), z: F32::one() }
    }
}

/// The direction of a ray, its azimuth given by cosine and sine.
pub open spec fn direction_of(z: F32, azimuth: (F32, F32)) -> Vec3 {
    let planar = F32::one().difference(z.product(z)).larger(F32::zero()).root();
    unit_or_z(Vec3 { x: planar.product(azimuth.0), y: planar.product(azimuth.1), z })
}

fn direction(z: F32, azimuth: (F32, F32)) -> (v: Vec3)
    ensures
        v == direction_of(z, azimuth),
{
    let planar: F32 = F32::one().minus(z.times(z)).max(F32::zero()).sqrt();
    let v: Vec3 = Vec3 { x: planar.times(azimuth.0), y: planar.times(azimuth.1), z };
    let reciprocal: F32 = F32::one().over(v.length());
    if reciprocal.is_finite() && F32::zero().lt(reciprocal) {
        v.times(reciprocal)
    } else {
        Vec3 { x: F32::zero(), y: F32::zero(), z: F32::one() }
    }
}

/// One, with the sign of the number.
pub open spec fn sign_of(x: F32) -> F32 {
    if x.negative() {
        F32::one().negation()
    } else {
        F32::one()
    }
}

/// Two vectors across a unit vector and across each other.
pub open spec fn across(v: Vec3) -> (Vec3, Vec3) {
    let sign = sign_of(v.z);
    let a = F32::one().negation().quotient(sign.sum(v.z));
    let b = v.x.product(v.y).product(a);
    (
        Vec3 {
            x: F32::one().sum(sign.product(v.x).product(v.x).product(a)),
            y: sign.product(b),
            z: sign.negation().product(v.x),
        },
        Vec3 { x: b, y: sign.sum(v.y.product(v.y).product(a)), z: v.y.negation() },
    )
}

fn orthonormal_pair(v: Vec3) -> (pair: (Vec3, Vec3))
    ensures
        pair == across(v),
{
    let sign: F32 = if v.z.bits >= 0x8000_0000 { F32::one().negated() } else { F32::one() };
    let a: F32 = F32::one().negated().over(sign.plus(v.z));
    let b: F32 = v.x.times(v.y).times(a);
    (
        Vec3 {
            x: F32::one().plus(sign.times(v.x).times(v.x).times(a)),
            y: sign.times(b),
            z: sign.negated().times(v.x),
        },
        Vec3 { x: b, y: sign.plus(v.y.times(v.y).times(a)), z: v.y.negated() },
    )
}

/// The shot line of a ray at the sphere around `center`: across its direction, evenly
/// by area over a disc as wide as the sphere, or wider where it is to miss; from one
/// and a half radii before the sphere to as much behind it.
pub open spec fn ray_of(
    draws: Draws,
    miss_fraction: F32,
    center: Vec3,
    radius: F32,
    azimuth: (F32, F32),
    angle: (F32, F32),
) -> FuzzRay {
    let direction = direction_of(draws.z, azimuth);
    let (u, v) = across(direction);
    let span = if draws.aim.below(miss_fraction) {
        radius.product(F32 { bits: 0x3fcc_cccd })
    } else {
        radius
    };
    let offset = u.scaled(angle.0).sum(v.scaled(angle.1)).scaled(span.product(draws.reach.root()));
    FuzzRay {
        origin: center.sum(offset).difference(direction.scaled(radius.product(F32 { bits: 0x3fc0_0000 }))),
        direction,
        length: radius.product(F32 { bits: 0x4040_0000 }),
    }
}

/// Aims a ray. `azimuth` and `angle` are the cosines and sines of the angles drawn.
pub fn ray_for(
    draws: &Draws,
    miss_fraction: F32,
    center: Vec3,
    radius: F32,
    azimuth: (F32, F32),
    angle: (F32, F32),
) -> (ray: FuzzRay)
    ensures
        ray == ray_of(*draws, miss_fraction, center, radius, azimuth, angle),
{
    let direction: Vec3 = direction(draws.z, azimuth);
    let (u, v): (Vec3, Vec3) = orthonormal_pair(direction);
    let span: F32 = if draws.aim.lt(miss_fraction) { radius.times(F32 { bits: 0x3fcc_cccd }) } else { radius };
    let offset: Vec3 = u.times(angle.0).plus(v.times(angle.1)).times(span.times(draws.reach.sqrt()));
    FuzzRay {
        origin: center.plus(offset).minus(direction.times(radius.times(F32 { bits: 0x3fc0_0000 }))),
        direction,
        length: radius.times(F32 { bits: 0x4040_0000 }),
    }
}

/// Every share drawn lies from zero up to one, one excluded.
pub proof fn law_shares_are_below_one(seed: u64, ray: u64, n: nat)
    ensures
        F32::zero().at_most(drawn(seed, ray, n)),
        drawn(seed, ray, n).below(F32::one()),
{
    let m = mixed(Rng::started(seed, ray).after(n).state);
    assert(m >> 40 < 0x100_0000) by (bit_vector);
    F32::lemma_share((m >> 40) as nat);
}

} // verus!
