//! The verified core of a tank game's ballistics, with the tools around it.
//!
//! Numbers are IEEE singles and doubles held by their bits, and every operation on them is the
//! exact result rounded once: a computation gives the same bits on every machine, and a contract
//! can say which. What the library promises as a whole stands in the proof functions named
//! `law_…`, beside the code that they are about.

pub mod arithmetic;
pub mod asset_verify;
pub mod ballistics;
pub mod bitprobe;
pub mod branding;
pub mod camera;
pub mod float;
pub mod folding;
pub mod folding_single;
pub mod format;
pub mod growth;
pub mod nearness;
pub mod order;
pub mod rounding;
pub mod rounding_double;
pub mod sorting;
pub mod spike;
pub mod text;
pub mod turning;
pub mod vector;
