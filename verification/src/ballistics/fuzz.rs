//! The ray fuzzer: random rays at a bound target, every invariant of the walk held
//! to them, and every cheap corridor to crew or ammunition reported.

pub mod arguments;
pub mod rays;
pub mod findings;
pub mod scene;
pub mod bounds;
pub mod measure;
pub mod corridors;
pub mod naming;
pub mod pass;
pub mod contract;
pub mod copying;
pub mod repeated;
pub mod lines;
pub mod words;
