//! The client: its script, its input slot, its menu, and when it is done.

use crate::float::F32;
use crate::vector::Vec3;
use vstd::prelude::*;

verus! {

/// What a driver asks of the tank.
#[derive(Clone, Copy, Debug, PartialEq, Eq, Structural)]
pub struct TankCommand {
    pub throttle: F32,
    pub steer: F32,
    /// The point to aim at, in the hull's frame.
    pub aim: Option<Vec3>,
    pub range: F32,
    pub fire_primary: bool,
    pub fire_secondary: bool,
    /// The seat to change to.
    pub crew_swap: Option<u32>,
}

impl TankCommand {
    /// Nothing is asked for.
    pub open spec fn idle() -> TankCommand {
        TankCommand {
            throttle: F32::zero(),
            steer: F32::zero(),
            aim: None,
            range: F32::zero(),
            fire_primary: false,
            fire_secondary: false,
            crew_swap: None,
        }
    }
}

impl Default for TankCommand {
    fn default() -> (command: TankCommand)
        ensures
            command == TankCommand::idle(),
    {
        TankCommand {
            throttle: F32::zero(),
            steer: F32::zero(),
            aim: None,
            range: F32::zero(),
            fire_primary: false,
            fire_secondary: false,
            crew_swap: None,
        }
    }
}

/// The tick at which the script starts to drive.
pub const DRIVE_FROM: u32 = 128;

/// Where the script is, and what it plays.
#[derive(Clone, Copy, Debug, PartialEq, Eq, Structural)]
pub struct SimulateInput {
    pub ticks: u32,
    pub fire_tick: u32,
    /// The first tick after the drive.
    pub drive_until: u32,
    /// How many ticks the script has.
    pub total: u32,
}

impl SimulateInput {
    pub open spec fn planned(long: bool, fire_tick: Option<u32>) -> SimulateInput {
        SimulateInput {
            ticks: 0,
            fire_tick: match fire_tick {
                Some(tick) => tick,
                None => 300,
            },
            drive_until: if long {
                1088
            } else {
                384
            },
            total: if long {
                1280
            } else {
                600
            },
        }
    }

    /// The short script, or the long one, with its shot where it is asked for.
    pub fn new(long: bool, fire_tick: Option<u32>) -> (script: SimulateInput)
        ensures
            script == SimulateInput::planned(long, fire_tick),
    {
        SimulateInput {
            ticks: 0,
            fire_tick: match fire_tick {
                Some(tick) => tick,
                None => 300,
            },
            drive_until: if long {
                1088
            } else {
                384
            },
            total: if long {
                1280
            } else {
                600
            },
        }
    }

    /// The script drives.
    pub open spec fn driving(self) -> bool {
        DRIVE_FROM <= self.ticks < self.drive_until
    }

    /// What the script asks for at its tick. Only the short script steers. `sweep` holds the
    /// sine and cosine of the angle where the aim goes round.
    pub open spec fn asks(self, earlier: TankCommand, sweep: Option<(F32, F32)>) -> TankCommand {
        TankCommand {
            throttle: if self.driving() {
                F32::one()
            } else {
                F32::zero()
            },
            steer: if self.driving() && self.drive_until == 384 {
                F32 { bits: 0x3e99_999a }
            } else {
                F32::zero()
            },
            aim: Some(aim_of(sweep)),
            range: F32 { bits: 0x4448_0000 },
            fire_primary: self.ticks == self.fire_tick,
            ..earlier
        }
    }

    /// Goes on by a tick and puts what the script asks for into the slot.
    pub fn buffer_input(&mut self, slot: &mut TankCommand, sweep: Option<(F32, F32)>)
        requires
            old(self).ticks < u32::MAX,
        ensures
            *final(self) == (SimulateInput { ticks: (old(self).ticks + 1) as u32, ..*old(self) }),
            *final(slot) == final(self).asks(*old(slot), sweep),
    {
        self.ticks = self.ticks + 1;
        let driving: bool = DRIVE_FROM <= self.ticks && self.ticks < self.drive_until;
        slot.throttle = if driving {
            F32::one()
        } else {
            F32::zero()
        };
        slot.steer = if driving && self.drive_until == 384 {
            F32 { bits: 0x3e99_999a }
        } else {
            F32::zero()
        };
        slot.aim = Some(aim(sweep));
        slot.range = F32 { bits: 0x4448_0000 };
        slot.fire_primary = self.ticks == self.fire_tick;
    }

    /// The angle (rad) of the sweep at the tick that comes next.
    pub fn sweep_angle(&self) -> (angle: F32)
        requires
            self.ticks < u32::MAX,
        ensures
            angle == (F32 { bits: 0x3ca3_d70a }).product(F32::whole((self.ticks + 1) as nat)),
    {
        (F32 { bits: 0x3ca3_d70a }).times(F32::from_whole((self.ticks + 1) as u64))
    }
}

/// The point to aim at: far ahead and aside, or going round.
pub open spec fn aim_of(sweep: Option<(F32, F32)>) -> Vec3 {
    match sweep {
        Some((sine, cosine)) => Vec3 {
            x: (F32 { bits: 0x4448_0000 }).product(sine),
            y: F32::zero(),
            z: (F32 { bits: 0xc448_0000 }).product(cosine),
        },
        None => Vec3 { x: F32 { bits: 0x4348_0000 }, y: F32::zero(), z: F32 { bits: 0xc448_0000 } },
    }
}

fn aim(sweep: Option<(F32, F32)>) -> (point: Vec3)
    ensures
        point == aim_of(sweep),
{
    match sweep {
        Some((sine, cosine)) => Vec3 {
            x: (F32 { bits: 0x4448_0000 }).times(sine),
            y: F32::zero(),
            z: (F32 { bits: 0xc448_0000 }).times(cosine),
        },
        None => Vec3 { x: F32 { bits: 0x4348_0000 }, y: F32::zero(), z: F32 { bits: 0xc448_0000 } },
    }
}

/// A script fires once: at one tick, and at no other.
pub proof fn law_the_script_fires_once(
    script: SimulateInput,
    tick: u32,
    earlier: TankCommand,
    sweep: Option<(F32, F32)>,
)
    ensures
        (SimulateInput { ticks: tick, ..script }).asks(earlier, sweep).fire_primary <==> tick == script.fire_tick,
{
}

/// The command that a tank which nobody predicts keeps for itself: what would act at once is
/// taken out.
pub open spec fn withheld(command: TankCommand) -> TankCommand {
    TankCommand { aim: None, fire_primary: false, fire_secondary: false, crew_swap: None, ..command }
}

/// Hands the gathered command on. An open menu hands on nothing, so the tank coasts.
pub fn feed_action_state(menu_open: bool, command: &mut TankCommand, predicted: bool) -> (fed: TankCommand)
    ensures
        fed == if menu_open {
            TankCommand::idle()
        } else {
            *old(command)
        },
        *final(command) == if predicted {
            *old(command)
        } else {
            withheld(*old(command))
        },
{
    let fed: TankCommand = if menu_open {
        TankCommand::default()
    } else {
        *command
    };
    if !predicted {
        command.aim = None;
        command.fire_primary = false;
        command.fire_secondary = false;
        command.crew_swap = None;
    }
    fed
}

/// How the client ends.
#[derive(Clone, Copy, Debug, PartialEq, Eq, Structural)]
pub enum Exit {
    Success,
    /// It never got a tank to drive.
    Failure,
}

/// Ends the client once its script has played out, or after forty seconds.
pub fn simulate_watchdog(script: &SimulateInput, elapsed: F32) -> (exit: Option<Exit>)
    ensures
        exit == if script.ticks >= script.total {
            Some(Exit::Success)
        } else if (F32 { bits: 0x4220_0000 }).below(elapsed) {
            Some(Exit::Failure)
        } else {
            None
        },
{
    if script.ticks >= script.total {
        Some(Exit::Success)
    } else if (F32 { bits: 0x4220_0000 }).lt(elapsed) {
        Some(Exit::Failure)
    } else {
        None
    }
}

/// What the menu does to the cursor.
#[derive(Clone, Copy, Debug, PartialEq, Eq, Structural)]
pub enum Cursor {
    /// Free, and drawn over the menu.
    Released,
    /// Centred, locked and hidden.
    Grabbed,
}

/// The menu over the game, which goes on under it.
#[derive(Clone, Copy, Debug, PartialEq, Eq, Structural)]
pub struct MenuOverlay {
    pub open: bool,
}

impl MenuOverlay {
    /// The key opens the menu and closes it again.
    pub fn toggle(&mut self, pressed: bool) -> (cursor: Option<Cursor>)
        ensures
            final(self).open == (old(self).open != pressed),
            cursor == if !pressed {
                None
            } else if final(self).open {
                Some(Cursor::Released)
            } else {
                Some(Cursor::Grabbed)
            },
    {
        if !pressed {
            return None;
        }
        self.open = !self.open;
        if self.open {
            Some(Cursor::Released)
        } else {
            Some(Cursor::Grabbed)
        }
    }
}

/// Whether the game starts: it is loading, and what the tank needs has loaded.
pub fn gate_opens(loading: bool, spec_loaded: Option<bool>) -> (yes: bool)
    ensures
        yes == (loading && spec_loaded == Some(true)),
{
    match spec_loaded {
        Some(loaded) => loading && loaded,
        None => false,
    }
}

/// The delay and the jitter (ms) put on the link, none where the delay is nothing.
pub fn conditioned(latency: Option<u64>, jitter: Option<u64>) -> (link: Option<(u64, u64)>)
    ensures
        ({
            let delay = match latency {
                Some(ms) => ms,
                None => 100,
            };
            let spread = match jitter {
                Some(ms) => ms,
                None => 20,
            };
            link == if delay > 0 {
                Some((delay, spread))
            } else {
                None
            }
        }),
{
    let delay: u64 = match latency {
        Some(ms) => ms,
        None => 100,
    };
    let spread: u64 = match jitter {
        Some(ms) => ms,
        None => 20,
    };
    if delay > 0 {
        Some((delay, spread))
    } else {
        None
    }
}

} // verus!
