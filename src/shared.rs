use crate::route::RouteEntry;
use crate::table::{all_masked, first_match, sorted_desc, RouteTable};
use std::sync::Arc;
use vstd::prelude::*;

verus! {

/// The raw lock of parking_lot, carried only as a type parameter.
#[verifier::external_type_specification]
#[verifier::external_body]
pub struct ExRawMutex(parking_lot::RawMutex);

/// The mutex of lock_api (parking_lot's `Mutex`), held opaque: its contents are
/// reached only through the wrappers below.
#[verifier::external_type_specification]
#[verifier::external_body]
#[verifier::reject_recursive_types(R)]
#[verifier::reject_recursive_types(T)]
pub struct ExLockMutex<R, T: ?Sized>(parking_lot::lock_api::Mutex<R, T>);

/// The cell that holds the current snapshot.
type SnapshotCell = parking_lot::lock_api::Mutex<parking_lot::RawMutex, Arc<RouteTable>>;

/// Relies on parking_lot::Mutex::new: an unlocked mutex around the value.
#[verifier::external_body]
fn new_cell(t: Arc<RouteTable>) -> (c: SnapshotCell) {
    parking_lot::Mutex::new(t)
}

/// Relies on parking_lot::Mutex::lock: the current snapshot is copied out
/// (a reference count is taken) while the lock is held.
#[verifier::external_body]
fn load_cell(c: &SnapshotCell) -> (t: Arc<RouteTable>) {
    c.lock().clone()
}

/// Relies on parking_lot::Mutex::lock: the snapshot is replaced as a whole
/// while the lock is held.
#[verifier::external_body]
fn store_cell(c: &SnapshotCell, t: Arc<RouteTable>) {
    *c.lock() = t;
}

/// The routing table that the monitor writes and any number of callers read:
/// a handle to one shared cell that holds the current snapshot. Clones share
/// the cell.
#[derive(Clone)]
pub struct ExternalRoute {
    route_table: Arc<SnapshotCell>,
}

impl ExternalRoute {
    /// A handle to a new cell holding the empty snapshot.
    pub fn new() -> (r: ExternalRoute) {
        ExternalRoute { route_table: Arc::new(new_cell(Arc::new(RouteTable::new()))) }
    }

    /// The snapshot installed last, as a whole.
    pub fn snapshot(&self) -> (t: Arc<RouteTable>)
        ensures
            all_masked(t@),
            sorted_desc(t@),
    {
        let t = load_cell(&self.route_table);
        proof {
            use_type_invariant(&*t);
        }
        t
    }

    /// Builds the snapshot of `route_table` (masked, sorted by destination,
    /// largest first) and installs it in place of the current one.
    pub fn update(&self, route_table: Vec<RouteEntry>) {
        let t = RouteTable::from_routes(route_table);
        store_cell(&self.route_table, Arc::new(t));
    }

    /// The gateway for `ip`, looked up in one complete snapshot.
    pub fn route(&self, ip: u32) -> (r: Option<u32>)
        ensures
            exists|s: Seq<RouteEntry>| all_masked(s) && sorted_desc(s) && r == first_match(s, ip),
    {
        let t = self.snapshot();
        t.route(ip)
    }
}

} // verus!
