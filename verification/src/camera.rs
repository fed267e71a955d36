//! The camera: free flight, the orbit around the tank, and the gunner's optic.
//!
//! Angles come and go as numbers here; the turns that they stand for, which need sines and
//! cosines, are made by the caller.

use crate::float::F32;
use crate::vector::{Quat, Vec3};
use vstd::prelude::*;

verus! {

/// How close to upright (rad) the view may pitch.
#[verifier::allow_in_spec]
pub fn pitch_limit() -> F32
    returns
        (F32 { bits: 0x3fc8_ef16 }),
{
    F32 { bits: 0x3fc8_ef16 }
}

/// The radius (m) of the orbit at its widest.
#[verifier::allow_in_spec]
pub fn orbit_far() -> F32
    returns
        (F32 { bits: 0x4190_0000 }),
{
    F32 { bits: 0x4190_0000 }
}

/// The radius (m) of the orbit at its narrowest.
#[verifier::allow_in_spec]
pub fn orbit_near() -> F32
    returns
        (F32 { bits: 0x40a0_0000 }),
{
    F32 { bits: 0x40a0_0000 }
}

/// The field of view (rad) assumed before the optic is known, narrower than any.
#[verifier::allow_in_spec]
pub fn gunner_fov_fallback() -> F32
    returns
        (F32 { bits: 0x3df5_c28f }),
{
    F32 { bits: 0x3df5_c28f }
}

/// A number held between two others.
pub open spec fn clamped(x: F32, low: F32, high: F32) -> F32 {
    if x.below(low) {
        low
    } else if high.below(x) {
        high
    } else {
        x
    }
}

fn clamp(x: F32, low: F32, high: F32) -> (held: F32)
    ensures
        held == clamped(x, low, high),
{
    if x.lt(low) {
        low
    } else if high.lt(x) {
        high
    } else {
        x
    }
}

/// How far the view turns for a movement of the mouse, along and across.
#[derive(Clone, Copy, Debug, PartialEq, Eq, Structural)]
pub struct Sensitivity {
    pub yaw: F32,
    pub pitch: F32,
}

/// The sensitivity of free flight.
#[verifier::allow_in_spec]
pub fn fly_sensitivity() -> Sensitivity
    returns
        (Sensitivity { yaw: F32 { bits: 0x3b44_9ba6 }, pitch: F32 { bits: 0x3b44_9ba6 } }),
{
    Sensitivity { yaw: F32 { bits: 0x3b44_9ba6 }, pitch: F32 { bits: 0x3b44_9ba6 } }
}

/// The sensitivity of the orbit.
#[verifier::allow_in_spec]
pub fn orbit_sensitivity() -> Sensitivity
    returns
        (Sensitivity { yaw: F32 { bits: 0x3b83_126f }, pitch: F32 { bits: 0x3b44_9ba6 } }),
{
    Sensitivity { yaw: F32 { bits: 0x3b83_126f }, pitch: F32 { bits: 0x3b44_9ba6 } }
}

/// Yaw and pitch after a movement of the mouse: the yaw turns freely, the pitch is held short
/// of upright.
pub open spec fn looked(yaw: F32, pitch: F32, dx: F32, dy: F32, by: Sensitivity) -> (F32, F32) {
    (
        yaw.difference(dx.product(by.yaw)),
        clamped(pitch.difference(dy.product(by.pitch)), pitch_limit().negation(), pitch_limit()),
    )
}

pub fn look(yaw: F32, pitch: F32, dx: F32, dy: F32, by: Sensitivity) -> (turned: (F32, F32))
    ensures
        turned == looked(yaw, pitch, dx, dy, by),
{
    (
        yaw.minus(dx.times(by.yaw)),
        clamp(pitch.minus(dy.times(by.pitch)), pitch_limit().negated(), pitch_limit()),
    )
}

/// The view never pitches past the limit.
pub proof fn law_pitch_is_held(yaw: F32, pitch: F32, dx: F32, dy: F32, by: Sensitivity)
    ensures
        ({
            let after = looked(yaw, pitch, dx, dy, by).1;
            after.is_nan() || (pitch_limit().negation().at_most(after) && after.at_most(pitch_limit()))
        }),
{
    lemma_limits();
}

proof fn lemma_limits()
    ensures
        pitch_limit().negation().at_most(pitch_limit()),
{
    reveal(F32::value);
    assert(0xbfc8_ef16u32 ^ 0x8000_0000u32 == 0x3fc8_ef16u32) by (bit_vector);
}

/// The keys of free flight that are held down.
#[derive(Clone, Copy, Debug, PartialEq, Eq, Structural)]
pub struct FlyKeys {
    pub forward: bool,
    pub back: bool,
    pub right: bool,
    pub left: bool,
    pub up: bool,
    pub down: bool,
}

/// A direction laid on the ground.
pub open spec fn level(v: Vec3) -> Vec3 {
    (Vec3 { x: v.x, y: F32::zero(), z: v.z }).normalized_or_zero()
}

pub open spec fn with(dir: Vec3, held: bool, step: Vec3) -> Vec3 {
    if held {
        dir.sum(step)
    } else {
        dir
    }
}

pub open spec fn without(dir: Vec3, held: bool, step: Vec3) -> Vec3 {
    if held {
        dir.difference(step)
    } else {
        dir
    }
}

/// Where the keys point to: ahead and aside over the ground, up and down along the vertical.
pub open spec fn pointed(keys: FlyKeys, rotation: Quat) -> Vec3 {
    let ahead = level(rotation.rotated(Vec3 { x: F32::zero(), y: F32::zero(), z: F32::one() }).negation());
    let aside = level(rotation.rotated(Vec3::unit_x()));
    let dir = without(with(Vec3::zero(), keys.forward, ahead), keys.back, ahead);
    let dir = without(with(dir, keys.right, aside), keys.left, aside);
    without(with(dir, keys.up, Vec3::unit_y()), keys.down, Vec3::unit_y())
}

/// The position after flying for a while: twelve metres a second where the keys point to.
pub open spec fn flown(translation: Vec3, rotation: Quat, keys: FlyKeys, seconds: F32) -> Vec3 {
    let dir = pointed(keys, rotation);
    if dir.equals(Vec3::zero()) {
        translation
    } else {
        translation.sum(
            dir.scaled(F32::one().quotient(dir.norm())).scaled(F32 { bits: 0x4140_0000 }).scaled(seconds),
        )
    }
}

/// Flies on, with the view already turned.
pub fn fly(translation: Vec3, rotation: Quat, keys: &FlyKeys, seconds: F32) -> (after: Vec3)
    ensures
        after == flown(translation, rotation, *keys, seconds),
{
    let z: Vec3 = rotation.rotate(Vec3 { x: F32::zero(), y: F32::zero(), z: F32::one() }).negated();
    let x: Vec3 = rotation.rotate(Vec3::unit_x());
    let ahead: Vec3 = (Vec3 { x: z.x, y: F32::zero(), z: z.z }).normalize_or_zero();
    let aside: Vec3 = (Vec3 { x: x.x, y: F32::zero(), z: x.z }).normalize_or_zero();
    let mut dir: Vec3 = Vec3::zero();
    if keys.forward {
        dir = dir.plus(ahead);
    }
    if keys.back {
        dir = dir.minus(ahead);
    }
    if keys.right {
        dir = dir.plus(aside);
    }
    if keys.left {
        dir = dir.minus(aside);
    }
    if keys.up {
        dir = dir.plus(Vec3::unit_y());
    }
    if keys.down {
        dir = dir.minus(Vec3::unit_y());
    }
    if dir.same(Vec3::zero()) {
        return translation;
    }
    let heading: Vec3 = dir.times(F32::one().over(dir.length()));
    translation.plus(heading.times(F32 { bits: 0x4140_0000 }).times(seconds))
}

/// A camera that nobody steers stays where it is.
pub proof fn law_no_keys_no_flight(translation: Vec3, rotation: Quat, seconds: F32)
    ensures
        flown(
            translation,
            rotation,
            (FlyKeys { forward: false, back: false, right: false, left: false, up: false, down: false }),
            seconds,
        ) == translation,
{
    reveal(F32::value);
}

/// How near the orbit is: nothing is out, one is in. The scroll sets what it eases to.
#[derive(Clone, Copy, Debug, PartialEq, Eq, Structural)]
pub struct OrbitCamera {
    pub zoom: F32,
    pub target_zoom: F32,
}

impl OrbitCamera {
    /// The orbit after a frame's scroll; `ease` is the share of the way that the frame covers.
    pub open spec fn dollied(self, scroll: F32, ease: F32) -> OrbitCamera {
        let target = clamped(
            self.target_zoom.sum(scroll.product(F32 { bits: 0x3c23_d70a })),
            F32::zero(),
            F32::one(),
        );
        OrbitCamera { zoom: self.zoom.sum(target.difference(self.zoom).product(ease)), target_zoom: target }
    }

    pub fn dolly(&mut self, scroll: F32, ease: F32)
        ensures
            *final(self) == old(self).dollied(scroll, ease),
    {
        let target: F32 = clamp(
            self.target_zoom.plus(scroll.times(F32 { bits: 0x3c23_d70a })),
            F32::zero(),
            F32::one(),
        );
        let zoom: F32 = self.zoom.plus(target.minus(self.zoom).times(ease));
        self.target_zoom = target;
        self.zoom = zoom;
    }

    /// The radius (m) of the orbit.
    pub open spec fn radius(self) -> F32 {
        orbit_far().sum(orbit_near().difference(orbit_far()).product(self.zoom))
    }

    pub fn distance(&self) -> (metres: F32)
        ensures
            metres == self.radius(),
    {
        orbit_far().plus(orbit_near().minus(orbit_far()).times(self.zoom))
    }
}

/// How fast (per second) the orbit glides to its zoom.
#[verifier::allow_in_spec]
pub fn zoom_glide() -> F32
    returns
        (F32 { bits: 0x4140_0000 }),
{
    F32 { bits: 0x4140_0000 }
}

/// The exponent of what is left of the way to the zoom after a frame.
pub fn glide_exponent(seconds: F32) -> (exponent: F32)
    ensures
        exponent == zoom_glide().negation().product(seconds),
{
    zoom_glide().negated().times(seconds)
}

/// The share of the way that a frame glides, where `left` is e to the [`glide_exponent`].
pub fn glide_share(left: F32) -> (ease: F32)
    ensures
        ease == F32::one().difference(left),
{
    F32::one().minus(left)
}

/// What the orbit eases to is always between out and in.
pub proof fn law_zoom_is_held(orbit: OrbitCamera, scroll: F32, ease: F32)
    ensures
        ({
            let after = orbit.dollied(scroll, ease).target_zoom;
            after.is_nan() || (F32::zero().at_most(after) && after.at_most(F32::one()))
        }),
{
    lemma_unit();
}

proof fn lemma_unit()
    ensures
        F32::zero().at_most(F32::one()),
{
    F32::zero().lemma_order_of_bits(F32::one());
}

/// The point that the camera turns around: the turret ring of the tank, lifted.
pub open spec fn pivot_of(translation: Vec3, rotation: Quat, scale: Vec3, turret: Vec3) -> Vec3 {
    rotation.rotated(
        Vec3 { x: scale.x.product(turret.x), y: scale.y.product(turret.y), z: scale.z.product(turret.z) },
    ).sum(translation).sum(Vec3::unit_y().scaled(F32 { bits: 0x4020_0000 }))
}

pub fn orbit_pivot(translation: Vec3, rotation: Quat, scale: Vec3, turret: Vec3) -> (pivot: Vec3)
    ensures
        pivot == pivot_of(translation, rotation, scale, turret),
{
    let local: Vec3 = Vec3 {
        x: scale.x.times(turret.x),
        y: scale.y.times(turret.y),
        z: scale.z.times(turret.z),
    };
    rotation.rotate(local).plus(translation).plus(Vec3::unit_y().times(F32 { bits: 0x4020_0000 }))
}

/// Where the camera sits: behind the pivot along its own view, as far as the ground lets it.
pub open spec fn seat_of(pivot: Vec3, rotation: Quat, clear: F32) -> Vec3 {
    pivot.sum(rotation.rotated(Vec3 { x: F32::zero(), y: F32::zero(), z: F32::one() }).scaled(clear))
}

pub fn orbit_seat(pivot: Vec3, rotation: Quat, clear: F32) -> (seat: Vec3)
    ensures
        seat == seat_of(pivot, rotation, clear),
{
    pivot.plus(rotation.rotate(Vec3 { x: F32::zero(), y: F32::zero(), z: F32::one() }).times(clear))
}

/// Whether the mouse turns the orbit: the camera follows, and there is a tank and a ring to
/// turn around.
pub fn may_look(follow: bool, pivot: bool, tank: bool) -> (yes: bool)
    ensures
        yes == (follow && pivot && tank),
{
    follow && pivot && tank
}

/// The field of view that the tank's optic frames, or the fallback before it is known.
pub fn view_fov(framed: Option<F32>, fallback: F32) -> (fov: F32)
    ensures
        fov == match framed {
            Some(fov) => fov,
            None => fallback,
        },
{
    match framed {
        Some(fov) => fov,
        None => fallback,
    }
}

/// A direction to look along: none where the span is nothing or not a number.
pub open spec fn heading_of(span: Vec3) -> Option<Vec3> {
    if span.norm().finite() && F32::zero().below(span.norm()) {
        Some(span.shared(span.norm()))
    } else {
        None
    }
}

pub fn heading(span: Vec3) -> (direction: Option<Vec3>)
    ensures
        direction == heading_of(span),
{
    let length: F32 = span.length();
    if length.is_finite() && F32::zero().lt(length) {
        Some(span.over(length))
    } else {
        None
    }
}

/// Where the orbit looks on leaving the optic: through its pivot at the committed point, or on
/// as it did where there is no such direction.
pub fn reaim(third_person: bool, target: Option<Vec3>, pivot: Vec3) -> (direction: Option<Vec3>)
    ensures
        direction == match target {
            Some(target) => if third_person {
                heading_of(target.difference(pivot))
            } else {
                None
            },
            None => None,
        },
{
    match target {
        Some(target) => if third_person {
            heading(target.minus(pivot))
        } else {
            None
        },
        None => None,
    }
}

/// A bearing in the hull's frame.
#[derive(Clone, Copy, Debug, PartialEq, Eq, Structural)]
pub struct Bearing {
    pub yaw: F32,
    pub pitch: F32,
}

/// The bearing a share `k` of the way from the sight line to the intent; `lead` is what the
/// yaw has to turn, the short way round. Without an intent it is the sight line.
pub open spec fn blend_of(sight: Bearing, intent: Option<(F32, Bearing)>, k: F32) -> Bearing {
    match intent {
        None => sight,
        Some((lead, intent)) => Bearing {
            yaw: sight.yaw.sum(k.product(lead)),
            pitch: sight.pitch.sum(k.product(intent.pitch.difference(sight.pitch))),
        },
    }
}

pub fn blended_look(sight: Bearing, intent: Option<(F32, Bearing)>, k: F32) -> (bearing: Bearing)
    ensures
        bearing == blend_of(sight, intent, k),
{
    match intent {
        None => sight,
        Some((lead, intent)) => Bearing {
            yaw: sight.yaw.plus(k.times(lead)),
            pitch: sight.pitch.plus(k.times(intent.pitch.minus(sight.pitch))),
        },
    }
}

/// The gun's end of the blend is the sight line, whatever the intent.
pub proof fn law_the_gun_end_is_the_sight_line(sight: Bearing, lead: F32, intent: Bearing)
    requires
        sight.yaw.finite(),
        sight.pitch.finite(),
        lead.finite(),
        intent.pitch.difference(sight.pitch).finite(),
    ensures
        blend_of(sight, Some((lead, intent)), F32::zero()).yaw.equals(sight.yaw),
        blend_of(sight, Some((lead, intent)), F32::zero()).pitch.equals(sight.pitch),
{
    sight.yaw.lemma_weightless(lead);
    sight.pitch.lemma_weightless(intent.pitch.difference(sight.pitch));
}

/// A share of a span, between none of it and all of it.
proof fn lemma_share(k: F32, span: F32)
    requires
        k.finite(),
        span.finite(),
        F32::zero().at_most(k),
        k.at_most(F32::one()),
    ensures
        k.product(span).finite(),
{
    let (zero, one) = (F32::zero(), F32::one());
    zero.lemma_nonnegative();
    span.lemma_product_trivial();
    let (low, high) = (zero.value() * span.value(), one.value() * span.value());
    let here = k.value() * span.value();
    assert(low <= here <= high || high <= here <= low) by (nonlinear_arith)
        requires
            low == zero.value() * span.value(),
            high == one.value() * span.value(),
            here == k.value() * span.value(),
            zero.value() <= k.value() <= one.value();
    if low <= here && here <= high {
        zero.lemma_product_monotone(span, k, span);
        k.lemma_product_monotone(span, one, span);
    } else {
        k.lemma_product_monotone(span, zero, span);
        one.lemma_product_monotone(span, k, span);
    }
    k.product(span).lemma_between(span);
}

/// One axis of the blend moves with the knob toward the intent.
proof fn lemma_axis(start: F32, span: F32, a: F32, b: F32)
    requires
        start.finite(),
        span.finite(),
        a.finite(),
        b.finite(),
        F32::zero().at_most(a),
        a.at_most(b),
        b.at_most(F32::one()),
    ensures
        F32::zero().at_most(span) ==> start.sum(a.product(span)).at_most(start.sum(b.product(span))),
        span.at_most(F32::zero()) ==> start.sum(b.product(span)).at_most(start.sum(a.product(span))),
{
    F32::zero().lemma_nonnegative();
    lemma_share(a, span);
    lemma_share(b, span);
    let (x, y) = (a.value() * span.value(), b.value() * span.value());
    assert(span.value() >= 0 ==> x <= y) by (nonlinear_arith)
        requires x == a.value() * span.value(), y == b.value() * span.value(), a.value() <= b.value();
    assert(span.value() <= 0 ==> y <= x) by (nonlinear_arith)
        requires x == a.value() * span.value(), y == b.value() * span.value(), a.value() <= b.value();
    if span.value() >= 0 {
        a.lemma_product_monotone(span, b, span);
        start.lemma_sum_monotone(a.product(span), b.product(span));
    }
    if span.value() <= 0 {
        b.lemma_product_monotone(span, a, span);
        start.lemma_sum_monotone(b.product(span), a.product(span));
    }
}

/// The blend never overshoots: a further turn of the knob brings both axes further toward the
/// intent or leaves them, so every bearing lies between those of the two ends.
pub proof fn law_the_blend_never_overshoots(sight: Bearing, lead: F32, intent: Bearing, a: F32, b: F32)
    requires
        sight.yaw.finite(),
        sight.pitch.finite(),
        lead.finite(),
        intent.pitch.difference(sight.pitch).finite(),
        a.finite(),
        b.finite(),
        F32::zero().at_most(a),
        a.at_most(b),
        b.at_most(F32::one()),
    ensures
        ({
            let (near, far) = (blend_of(sight, Some((lead, intent)), a), blend_of(sight, Some((lead, intent)), b));
            let climb = intent.pitch.difference(sight.pitch);
            &&& F32::zero().at_most(lead) ==> near.yaw.at_most(far.yaw)
            &&& lead.at_most(F32::zero()) ==> far.yaw.at_most(near.yaw)
            &&& F32::zero().at_most(climb) ==> near.pitch.at_most(far.pitch)
            &&& climb.at_most(F32::zero()) ==> far.pitch.at_most(near.pitch)
        }),
{
    lemma_axis(sight.yaw, lead, a, b);
    lemma_axis(sight.pitch, intent.pitch.difference(sight.pitch), a, b);
}

} // verus!
