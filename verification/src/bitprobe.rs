//! The bit probe: a scripted drive whose every fixed tick is dumped word by word, so that two
//! machines can be compared bit for bit.

pub mod capture;
pub mod dump;
pub mod fields;
pub mod run;
pub mod script;
pub mod startup;
