//! How a run is started: its command line, and how long it waits for the world to be ready.

use crate::bitprobe::startup;
use crate::vector::{Quat, Vec3};
use vstd::prelude::*;

verus! {

/// How often the plugins are polled, a millisecond apart.
pub const PLUGIN_POLLS: u32 = 60_000;

/// How many frozen updates the fixture gets.
pub const FIXTURE_UPDATES: u32 = 16;

/// Why a command line is refused.
#[derive(Clone, Copy, Debug, PartialEq, Eq, Structural)]
pub enum UsageError {
    /// No output path.
    NoOutput,
    /// More than one word after the program's name.
    TooManyWords,
}

/// Where the one output path stands among all words, the program's name included.
pub fn output_word(words: usize) -> (place: Result<usize, UsageError>)
    ensures
        place == if words <= 1 {
            Err::<usize, UsageError>(UsageError::NoOutput)
        } else if words > 2 {
            Err(UsageError::TooManyWords)
        } else {
            Ok(1)
        },
{
    if words <= 1 {
        Err(UsageError::NoOutput)
    } else if words > 2 {
        Err(UsageError::TooManyWords)
    } else {
        Ok(1)
    }
}

/// What to do after a poll.
#[derive(Clone, Copy, Debug, PartialEq, Eq, Structural)]
pub enum Poll {
    Ready,
    Again,
    GiveUp,
}

/// What to do after the poll with the given number, counted from zero, of at most `limit`.
pub open spec fn poll_outcome(polled: u32, limit: u32, ready: bool) -> Poll {
    if ready {
        Poll::Ready
    } else if polled + 1 < limit {
        Poll::Again
    } else {
        Poll::GiveUp
    }
}

pub fn poll(polled: u32, limit: u32, ready: bool) -> (next: Poll)
    ensures
        next == poll_outcome(polled, limit, ready),
{
    if ready {
        Poll::Ready
    } else if limit > 0 && polled < limit - 1 {
        Poll::Again
    } else {
        Poll::GiveUp
    }
}

/// A wait that is never ready is given up after exactly its limit of polls.
pub proof fn law_waiting_ends(limit: u32, polled: u32)
    requires
        polled < limit,
    ensures
        poll_outcome(polled, limit, false) == Poll::GiveUp <==> polled == limit - 1,
{
}

/// What the fixture waits for.
#[derive(Clone, Copy, Debug, PartialEq, Eq, Structural)]
pub struct Readiness {
    pub gear: bool,
    pub field: bool,
    pub tank: bool,
    pub playing: bool,
}

/// The gear and the ground field are there, the tank is, and the game plays.
pub fn is_ready(world: Readiness) -> (yes: bool)
    ensures
        yes == (world.gear && world.field && world.tank && world.playing),
{
    world.gear && world.field && world.tank && world.playing
}

/// Where a tank is put, if one is due: none has been spawned yet, and its content has loaded.
pub fn spawn_due(spawned: bool, loaded: bool) -> (place: Option<(Vec3, Quat)>)
    ensures
        place == if !spawned && loaded {
            Some((startup::spawn_translation(), Quat::identity()))
        } else {
            None
        },
{
    if !spawned && loaded {
        Some((startup::spawn_translation(), Quat::identity()))
    } else {
        None
    }
}

} // verus!
