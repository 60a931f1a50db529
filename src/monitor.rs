use crate::route::{filter_seq, filtered, route_warp, IpAddress, RouteEntry, RouteRecord};
use crate::table::{lemma_snapshot_masked, masked, snapshot_of};
use vstd::prelude::*;

verus! {

/// A change that the operating system reports in its routing table.
#[derive(Clone, Copy, Debug, PartialEq, Eq, Structural)]
pub enum RouteEvent {
    Add(RouteRecord),
    Delete(RouteRecord),
    Change(RouteRecord),
}

/// The record that an event carries, whatever its kind.
pub open spec fn event_route(event: RouteEvent) -> RouteRecord {
    match event {
        RouteEvent::Add(r) => r,
        RouteEvent::Delete(r) => r,
        RouteEvent::Change(r) => r,
    }
}

/// What the monitor does about one change event.
#[derive(Clone, Copy, Debug, PartialEq, Eq, Structural)]
pub enum MonitorAction {
    /// The change cannot concern the interface: no listing is asked for.
    Ignore,
    /// The change concerns the interface: log the changed route (destination
    /// masked, with its prefix length), ask for the complete listing, and
    /// install the snapshot of what passes the filter.
    Resync { changed: RouteEntry, prefix: u8 },
}

/// The decision for one change event: a resync exactly when the carried record
/// passes the route filter for interface `if_index`.
pub fn on_change(event: RouteEvent, if_index: u32) -> (a: MonitorAction)
    ensures
        match filtered(event_route(event), if_index) {
            None => a == MonitorAction::Ignore,
            Some(e) => a == (MonitorAction::Resync {
                changed: masked(e),
                prefix: event_route(event).prefix,
            }),
        },
{
    let route = match event {
        RouteEvent::Add(r) => r,
        RouteEvent::Delete(r) => r,
        RouteEvent::Change(r) => r,
    };
    match route_warp(route, if_index) {
        None => MonitorAction::Ignore,
        Some(e) => MonitorAction::Resync {
            changed: RouteEntry {
                destination: e.destination & e.mask,
                mask: e.mask,
                gateway: e.gateway,
            },
            prefix: route.prefix,
        },
    }
}

proof fn lemma_filter_seq_sources(routes: Seq<RouteRecord>, if_index: u32)
    ensures
        forall|k: int|
            0 <= k < filter_seq(routes, if_index).len() ==> exists|j: int|
                0 <= j < routes.len() && filtered(#[trigger] routes[j], if_index) == Some(
                    #[trigger] filter_seq(routes, if_index)[k],
                ),
    decreases routes.len(),
{
    if routes.len() != 0 {
        let init = routes.drop_last();
        lemma_filter_seq_sources(init, if_index);
        let f = filter_seq(routes, if_index);
        assert forall|k: int| 0 <= k < f.len() implies exists|j: int|
            0 <= j < routes.len() && filtered(#[trigger] routes[j], if_index) == Some(
                #[trigger] f[k],
            ) by {
            if k < filter_seq(init, if_index).len() {
                let j = choose|j: int|
                    0 <= j < init.len() && filtered(#[trigger] init[j], if_index) == Some(
                        #[trigger] filter_seq(init, if_index)[k],
                    );
                assert(routes[j] == init[j]);
            } else {
                assert(filtered(routes[routes.len() - 1], if_index) == Some(f[k]));
            }
        }
    }
}

/// Only records that pass the filter reach a snapshot: every entry installed
/// after a resync stems from a record of the listing that belongs to interface
/// `if_index`, has IPv4 destination and gateway, and has a specified gateway.
/// A record of another interface, with no or an unspecified gateway, or with
/// an IPv6 address leaves no entry behind.
pub proof fn lemma_filter_exclusion(routes: Seq<RouteRecord>, if_index: u32)
    ensures
        forall|i: int|
            0 <= i < snapshot_of(filter_seq(routes, if_index)).len() ==> exists|j: int|
                0 <= j < routes.len() && (#[trigger] routes[j]).ifindex == Some(if_index)
                    && routes[j].destination is V4 && routes[j].gateway == Some(
                    IpAddress::V4(
                        (#[trigger] snapshot_of(filter_seq(routes, if_index))[i]).gateway,
                    ),
                ) && snapshot_of(filter_seq(routes, if_index))[i].gateway != 0,
{
    let f = filter_seq(routes, if_index);
    let snap = snapshot_of(f);
    lemma_snapshot_masked(f);
    lemma_filter_seq_sources(routes, if_index);
    assert forall|i: int| 0 <= i < snap.len() implies exists|j: int|
        0 <= j < routes.len() && (#[trigger] routes[j]).ifindex == Some(if_index)
            && routes[j].destination is V4 && routes[j].gateway == Some(
            IpAddress::V4((#[trigger] snap[i]).gateway),
        ) && snap[i].gateway != 0 by {
        let k = choose|k: int| 0 <= k < f.len() && #[trigger] snap[i] == masked(#[trigger] f[k]);
        let j = choose|j: int|
            0 <= j < routes.len() && filtered(#[trigger] routes[j], if_index) == Some(
                #[trigger] f[k],
            );
        assert(routes[j].ifindex == Some(if_index));
    }
}

} // verus!
