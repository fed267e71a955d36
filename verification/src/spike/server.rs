//! The server: one push per client, which no client can see coming.

use crate::float::F32;
use crate::spike::client::TankCommand;
use crate::vector::Vec3;
use vstd::prelude::*;

verus! {

/// How long (ns) after a client has come its tank is pushed.
pub const PERTURB_AFTER: u64 = 2_000_000_000;

/// The push (N s), sideways.
#[verifier::allow_in_spec]
pub fn impulse() -> Vec3
    returns
        (Vec3 { x: F32 { bits: 0x4826_fe00 }, y: F32 { bits: 0 }, z: F32 { bits: 0 } }),
{
    Vec3 { x: F32 { bits: 0x4826_fe00 }, y: F32 { bits: 0 }, z: F32 { bits: 0 } }
}

/// A push that is still to come, at a time (ns) since the start.
#[derive(Clone, Copy, Debug, PartialEq, Eq, Structural)]
pub struct PendingPerturbation {
    pub at: u64,
}

/// The push of a client that has come at a time (ns) since the start.
pub fn pending(elapsed: u64) -> (push: PendingPerturbation)
    requires
        elapsed + PERTURB_AFTER <= u64::MAX,
    ensures
        push.at == elapsed + PERTURB_AFTER,
{
    PendingPerturbation { at: elapsed + PERTURB_AFTER }
}

/// The push, once its time has come; it is then no longer pending.
pub fn perturb_after_delay(slot: &mut Option<PendingPerturbation>, elapsed: u64) -> (push: Option<Vec3>)
    ensures
        (push, *final(slot)) == pushed(*old(slot), elapsed),
{
    match *slot {
        Some(waiting) => {
            if elapsed < waiting.at {
                return None;
            }
            *slot = None;
            Some(impulse())
        },
        None => None,
    }
}

/// A tank is pushed once: after the push nothing is pending, and nothing pending never pushes.
pub proof fn law_one_push(waiting: PendingPerturbation, now: u64, later: u64)
    requires
        waiting.at <= now <= later,
    ensures
        pushed(Some(waiting), now).0 is Some,
        pushed(pushed(Some(waiting), now).1, later).0 is None,
{
}

/// The push at a time, and what is pending after it.
pub open spec fn pushed(slot: Option<PendingPerturbation>, elapsed: u64) -> (Option<Vec3>, Option<PendingPerturbation>) {
    match slot {
        Some(waiting) => if elapsed < waiting.at {
            (None, slot)
        } else {
            (Some(impulse()), None)
        },
        None => (None, None),
    }
}

/// Whether a command is worth logging.
pub fn is_told(command: &TankCommand) -> (yes: bool)
    ensures
        yes == (!command.throttle.equals(F32::zero()) || command.fire_primary),
{
    !command.throttle.same(F32::zero()) || command.fire_primary
}

} // verus!
