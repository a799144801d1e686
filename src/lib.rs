//! Memory snapshot and restore engine for a target that is run over and over
//! under instrumentation: capture a baseline once, track the pages written
//! during an iteration, and compute what must be written back, reprotected or
//! unmapped so that the next iteration starts from the baseline again.

pub mod hooks;
pub mod laws;
pub mod ledger;
pub mod page;
pub mod perms;
pub mod snapshot;
