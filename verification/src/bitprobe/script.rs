//! The scripted drive: what the driver does at each tick.

use crate::float::F32;
use vstd::prelude::*;

verus! {

pub const FORMAT_VERSION: u32 = 1;

pub const TICK_HZ: u32 = 64;

pub const TICK_COUNT: u32 = 3_072;

pub const SETTLE_END: u32 = 128;

pub const RAMP_END: u32 = 256;

pub const CLIMB_END: u32 = 1_792;

pub const CRUISE_END: u32 = 2_304;

pub const WIDE_END: u32 = 2_560;

pub const TIGHT_END: u32 = 2_816;

/// The steer of the wide detent, 0.35.
#[verifier::allow_in_spec]
pub fn wide() -> F32
    returns
        (F32 { bits: 0x3eb3_3333 }),
{
    F32 { bits: 0x3eb3_3333 }
}

/// The steer of the tight detent, 0.80.
#[verifier::allow_in_spec]
pub fn tight() -> F32
    returns
        (F32 { bits: 0x3f4c_cccd }),
{
    F32 { bits: 0x3f4c_cccd }
}

/// The throttle at a tick: none while the tank settles, then a straight ramp, then full.
pub open spec fn throttle_at(tick: u32) -> F32 {
    if tick < SETTLE_END {
        F32::zero()
    } else if tick < RAMP_END {
        F32::whole((tick - SETTLE_END + 1) as nat).product(
            F32::one().quotient(F32::whole((RAMP_END - SETTLE_END) as nat)),
        )
    } else {
        F32::one()
    }
}

/// The steer at a tick: the wide detent, then the tight one, and straight otherwise.
pub open spec fn steer_at(tick: u32) -> F32 {
    if CRUISE_END <= tick < WIDE_END {
        wide()
    } else if WIDE_END <= tick < TIGHT_END {
        tight()
    } else {
        F32::zero()
    }
}

/// Throttle and steer at a tick.
pub fn scripted_input(tick: u32) -> (input: (F32, F32))
    ensures
        input == (throttle_at(tick), steer_at(tick)),
{
    if tick < SETTLE_END {
        (F32::zero(), F32::zero())
    } else if tick < RAMP_END {
        let step: F32 = F32::from_whole((tick - SETTLE_END + 1) as u64);
        let share: F32 = F32::one().over(F32::from_whole((RAMP_END - SETTLE_END) as u64));
        (step.times(share), F32::zero())
    } else if tick < CRUISE_END {
        (F32::one(), F32::zero())
    } else if tick < WIDE_END {
        (F32::one(), wide())
    } else if tick < TIGHT_END {
        (F32::one(), tight())
    } else {
        (F32::one(), F32::zero())
    }
}

/// A stretch of the script, as the header describes it.
#[derive(Clone, Copy, Debug)]
pub struct Phase {
    pub start: u32,
    pub end_exclusive: u32,
    pub name: &'static str,
    pub throttle: &'static str,
    pub steer: &'static str,
}

pub open spec fn scenario() -> Seq<Phase> {
    seq![
        Phase { start: 0, end_exclusive: SETTLE_END, name: "settle", throttle: "0", steer: "0" },
        Phase {
            start: SETTLE_END,
            end_exclusive: RAMP_END,
            name: "linear throttle ramp",
            throttle: "1/128..1",
            steer: "0",
        },
        Phase {
            start: RAMP_END,
            end_exclusive: CLIMB_END,
            name: "full-throttle gear climb",
            throttle: "1",
            steer: "0",
        },
        Phase { start: CLIMB_END, end_exclusive: CRUISE_END, name: "straight cruise", throttle: "1", steer: "0" },
        Phase { start: CRUISE_END, end_exclusive: WIDE_END, name: "WIDE detent hold", throttle: "1", steer: "0.35" },
        Phase { start: WIDE_END, end_exclusive: TIGHT_END, name: "TIGHT detent hold", throttle: "1", steer: "0.80" },
        Phase { start: TIGHT_END, end_exclusive: TICK_COUNT, name: "released cruise", throttle: "1", steer: "0" },
    ]
}

/// The stretches of the script, in order.
pub fn phases() -> (all: Vec<Phase>)
    ensures
        all@ == scenario(),
{
    let all: Vec<Phase> = vec![
        Phase { start: 0, end_exclusive: SETTLE_END, name: "settle", throttle: "0", steer: "0" },
        Phase {
            start: SETTLE_END,
            end_exclusive: RAMP_END,
            name: "linear throttle ramp",
            throttle: "1/128..1",
            steer: "0",
        },
        Phase {
            start: RAMP_END,
            end_exclusive: CLIMB_END,
            name: "full-throttle gear climb",
            throttle: "1",
            steer: "0",
        },
        Phase { start: CLIMB_END, end_exclusive: CRUISE_END, name: "straight cruise", throttle: "1", steer: "0" },
        Phase { start: CRUISE_END, end_exclusive: WIDE_END, name: "WIDE detent hold", throttle: "1", steer: "0.35" },
        Phase { start: WIDE_END, end_exclusive: TIGHT_END, name: "TIGHT detent hold", throttle: "1", steer: "0.80" },
        Phase { start: TIGHT_END, end_exclusive: TICK_COUNT, name: "released cruise", throttle: "1", steer: "0" },
    ];
    assert(all@ =~= scenario());
    all
}

/// The stretches cover every tick of the run once: the first starts at tick zero, each next
/// one where the one before ends, and the last ends with the run.
pub proof fn law_phases_cover_the_run()
    ensures
        scenario()[0].start == 0,
        scenario().last().end_exclusive == TICK_COUNT,
        forall|i: int|
            0 <= i < scenario().len() - 1 ==> (#[trigger] scenario()[i]).start < scenario()[i].end_exclusive
                && scenario()[i].end_exclusive == scenario()[i + 1].start,
{
}

/// The driver holds throttle and steer through every stretch but the ramp.
pub proof fn law_phases_are_held(i: int, a: u32, b: u32)
    requires
        0 <= i < scenario().len(),
        i != 1,
        scenario()[i].start <= a < scenario()[i].end_exclusive,
        scenario()[i].start <= b < scenario()[i].end_exclusive,
    ensures
        throttle_at(a) == throttle_at(b),
        steer_at(a) == steer_at(b),
{
}

} // verus!
