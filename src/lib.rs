//! A live mirror of one interface's IPv4 routing table: a filter that turns
//! operating-system route records into routing entries, an immutable snapshot
//! searched largest destination first, a shared handle that swaps snapshots
//! atomically, and the decision step of the route-change monitor.
pub mod route;
pub mod table;
pub mod shared;
pub mod monitor;
pub mod config;
