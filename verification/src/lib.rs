//! Verified core of a TCP latency prober that keeps the fastest reachable
//! address of each monitored host pinned in the system hosts file.

pub mod text;
pub mod order;
pub mod best;
pub mod hosts;
pub mod endpoint;
pub mod records;
pub mod schedule;
pub mod clock;
