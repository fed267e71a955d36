//! How a round in flight is drawn: a shell, a tracer's streak, or nothing.

use crate::float::F32;
use crate::vector::{Quat, Vec3};
use vstd::prelude::*;

verus! {

/// Whether something is drawn.
#[derive(Clone, Copy, Debug, PartialEq, Eq, Structural)]
pub enum Visibility {
    Hidden,
    /// As its parent is.
    Inherited,
}

/// Where a child is drawn, how it is turned and how it is stretched.
#[derive(Clone, Copy, Debug, PartialEq, Eq, Structural)]
pub struct Transform {
    pub translation: Vec3,
    pub rotation: Quat,
    pub scale: Vec3,
}

/// The streak of a tracer round, no longer than the round has flown.
#[derive(Clone, Copy, Debug, PartialEq, Eq, Structural)]
pub struct TracerStreak {
    pub nominal_len: F32,
}

/// The quarter turn that lays the streak's own axis, up, along the flight, forward.
#[verifier::allow_in_spec]
pub fn along_the_flight() -> Quat
    returns
        (Quat { x: F32 { bits: 0xbf35_04f3 }, y: F32 { bits: 0 }, z: F32 { bits: 0 }, w: F32 { bits: 0x3f35_04f3 } }),
{
    Quat { x: F32 { bits: 0xbf35_04f3 }, y: F32 { bits: 0 }, z: F32 { bits: 0 }, w: F32 { bits: 0x3f35_04f3 } }
}

impl TracerStreak {
    /// How long the streak is drawn: as long as it wants, but no longer than it has flown.
    pub open spec fn drawn(self, flown: F32) -> F32 {
        self.nominal_len.smaller(flown).larger(F32::zero())
    }

    /// The streak's transform: its middle half its length behind the round.
    pub open spec fn placed(self, flown: F32) -> Transform {
        let len = self.drawn(flown);
        Transform {
            translation: Vec3 { x: F32::zero(), y: F32::zero(), z: F32::one() }.scaled(len.product(F32 { bits: 0x3f00_0000 })),
            rotation: along_the_flight(),
            scale: Vec3 { x: F32::one(), y: len, z: F32::one() },
        }
    }

    /// The streak of a round that has flown so far (m) since the muzzle or its last bounce.
    pub fn drawn_transform(&self, flown: F32) -> (transform: Transform)
        ensures
            transform == self.placed(flown),
    {
        let len: F32 = self.nominal_len.min(flown).max(F32::zero());
        let back: Vec3 = Vec3 { x: F32::zero(), y: F32::zero(), z: F32::one() };
        Transform {
            translation: back.times(len.times(F32 { bits: 0x3f00_0000 })),
            rotation: along_the_flight(),
            scale: Vec3 { x: F32::one(), y: len, z: F32::one() },
        }
    }
}

/// A streak is never longer than the round has flown: its tail does not stand before the
/// muzzle.
pub proof fn law_no_tail_before_the_muzzle(streak: TracerStreak, flown: F32)
    requires
        !flown.is_nan(),
        F32::zero().at_most(flown),
    ensures
        streak.drawn(flown).at_most(flown),
        F32::zero().at_most(streak.drawn(flown)),
{
}

pub open spec fn visibility_of(held: bool) -> Visibility {
    if held {
        Visibility::Hidden
    } else {
        Visibility::Inherited
    }
}

/// A held round is not drawn: the hold is a stop that nobody sees.
pub fn held_visibility(held: bool) -> (visibility: Visibility)
    ensures
        visibility == visibility_of(held),
{
    if held {
        Visibility::Hidden
    } else {
        Visibility::Inherited
    }
}

/// What becomes of a round's visibility where a hold starts or ends: a round that is not drawn
/// at all gets none.
pub fn on_hold(dressed: bool, held: bool) -> (change: Option<Visibility>)
    ensures
        change == if dressed {
            Some(visibility_of(held))
        } else {
            None
        },
{
    if dressed {
        Some(held_visibility(held))
    } else {
        None
    }
}

/// A round as it is born.
#[derive(Clone, Copy, Debug, PartialEq, Eq, Structural)]
pub struct NewRound {
    pub caliber: F32,
    pub speed: F32,
    pub at: Vec3,
    /// Where its path opens, if it has one.
    pub muzzle: Option<Vec3>,
    pub held: bool,
    pub tracer: bool,
}

/// What a round is drawn as.
#[derive(Clone, Copy, Debug, PartialEq, Eq, Structural)]
pub enum Dressing {
    Shell(Visibility),
    Streak { visibility: Visibility, streak: TracerStreak, transform: Transform },
    /// It flies unseen.
    Nothing,
}

/// The streak of a round: longer the faster it flies, and two metres at least.
pub open spec fn streak_of(speed: F32) -> TracerStreak {
    TracerStreak { nominal_len: speed.product(F32 { bits: 0x3c93_74bc }).larger(F32 { bits: 0x4000_0000 }) }
}

/// How far a round has flown since the muzzle.
pub open spec fn flown_by(round: NewRound) -> F32 {
    match round.muzzle {
        Some(muzzle) => round.at.difference(muzzle).norm(),
        None => F32::zero(),
    }
}

/// A round of the main gun's calibre is a shell, a smaller one a streak where it is a tracer,
/// and nothing otherwise.
pub open spec fn dressing_of(round: NewRound, tracer_max_caliber: F32) -> Dressing {
    if tracer_max_caliber.at_most(round.caliber) {
        Dressing::Shell(visibility_of(round.held))
    } else if round.tracer {
        Dressing::Streak {
            visibility: visibility_of(round.held),
            streak: streak_of(round.speed),
            transform: streak_of(round.speed).placed(flown_by(round)),
        }
    } else {
        Dressing::Nothing
    }
}

/// Dresses a round that has just been born.
pub fn dress_projectile(round: &NewRound, tracer_max_caliber: F32) -> (dressing: Dressing)
    ensures
        dressing == dressing_of(*round, tracer_max_caliber),
{
    if tracer_max_caliber.le(round.caliber) {
        return Dressing::Shell(held_visibility(round.held));
    }
    if !round.tracer {
        return Dressing::Nothing;
    }
    let streak: TracerStreak = TracerStreak {
        nominal_len: round.speed.times(F32 { bits: 0x3c93_74bc }).max(F32 { bits: 0x4000_0000 }),
    };
    let flown: F32 = match round.muzzle {
        Some(muzzle) => round.at.minus(muzzle).length(),
        None => F32::zero(),
    };
    Dressing::Streak {
        visibility: held_visibility(round.held),
        streak,
        transform: streak.drawn_transform(flown),
    }
}

} // verus!
