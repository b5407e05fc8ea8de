//! Recursive disk-usage statistics: an append-only tree arena with
//! incremental ancestor aggregation, a pluggable traversal-source
//! abstraction, and a time-bounded incremental-drain driver.

pub mod du;
pub mod util;
