//! The networked rehearsal: what the scripted client does, what both ends watch for, and the
//! push that the server gives.

pub mod client;
pub mod server;
pub mod watch;
