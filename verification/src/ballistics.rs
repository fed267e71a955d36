//! What a round meets on its way and what that costs it: the crossings of a corridor, the walk
//! through the volumes that overlap there, the contact that follows, the authority's account of
//! a shot, the fuzzer that holds a target to all of it, and how a round is drawn.

pub mod collect;
pub mod fuzz;
pub mod resolve;
pub mod sanctioned;
pub mod view;
pub mod walk;
