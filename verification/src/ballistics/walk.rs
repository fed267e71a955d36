//! The union field walk.
//!
//! Along a ray the ballistic volumes form a material-factor field; cost is the
//! integral of the largest factor present, and every boundary law fires where the
//! field steps. The walk is a pure function of what was collected beforehand.
//! Topology that cannot be paired is an error that names what was violated: a
//! missing exit is never invented and nothing is charged at zero.

pub mod table;
pub mod topology;
pub mod vocabulary;
pub mod field;
pub mod spans;
pub mod weld;
pub mod events;
pub mod presence;
pub mod ray;
pub mod laws;
pub mod determined;
pub mod pairing;
pub mod budget;
pub mod spent;
pub mod locality;
pub mod charges;
pub mod faces;
pub mod handoff;
pub mod portions;
pub mod copies;
pub mod integral;
pub mod adding;
pub mod plates;
pub mod fragment;
pub mod crossings;
pub mod rising;
pub mod one_disc;
pub mod sharing;
pub mod sweep;
pub mod mean;
pub mod places;
pub mod disc;
pub mod extent;
pub mod profile;
pub mod reports;
pub mod shares;
pub mod spall;
pub mod association;
pub mod event;
pub mod disc_walk;
pub mod stage;
