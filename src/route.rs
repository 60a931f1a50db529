use vstd::prelude::*;

verus! {

/// An address as a route record carries it: IPv4 in host byte order, or IPv6.
#[derive(Clone, Copy, Debug, PartialEq, Eq, Structural)]
pub enum IpAddress {
    V4(u32),
    V6(u128),
}

/// One route record as the operating system reports it.
#[derive(Clone, Copy, Debug, PartialEq, Eq, Structural)]
pub struct RouteRecord {
    pub ifindex: Option<u32>,
    pub destination: IpAddress,
    pub prefix: u8,
    pub gateway: Option<IpAddress>,
}

/// A routing entry: destination network, contiguous mask, and next-hop gateway,
/// all IPv4 in host byte order.
#[derive(Clone, Copy, Debug, PartialEq, Eq, Structural)]
pub struct RouteEntry {
    pub destination: u32,
    pub mask: u32,
    pub gateway: u32,
}

/// The mask whose top `prefix` bits are set and whose other bits are clear.
pub open spec fn prefix_mask(prefix: u8) -> u32
    recommends
        prefix <= 32,
{
    if prefix == 0 {
        0
    } else {
        (!0u32) << ((32 - prefix) as u32)
    }
}

/// Converts a prefix length into a 32-bit contiguous mask.
pub fn prefix_to_mask(prefix: u8) -> (mask: u32)
    requires
        prefix <= 32,
    ensures
        mask == prefix_mask(prefix),
{
    if prefix == 0 {
        0
    } else {
        let shift: u32 = (32 - prefix) as u32;
        (!0u32) << shift
    }
}

/// What the route filter makes of a record: an entry with the destination not
/// yet masked, or `None` for a record that does not concern the interface
/// `if_index` or cannot be used as an IPv4 next hop.
pub open spec fn filtered(route: RouteRecord, if_index: u32) -> Option<RouteEntry> {
    match (route.ifindex, route.destination, route.gateway) {
        (Some(index), IpAddress::V4(dest), Some(IpAddress::V4(gateway))) => {
            if index == if_index && gateway != 0 && route.prefix <= 32 {
                Some(RouteEntry { destination: dest, mask: prefix_mask(route.prefix), gateway })
            } else {
                None
            }
        },
        _ => None,
    }
}

/// The entries that the filter makes of a list of records, in list order.
pub open spec fn filter_seq(routes: Seq<RouteRecord>, if_index: u32) -> Seq<RouteEntry>
    decreases routes.len(),
{
    if routes.len() == 0 {
        Seq::empty()
    } else {
        let rest = filter_seq(routes.drop_last(), if_index);
        match filtered(routes.last(), if_index) {
            Some(e) => rest.push(e),
            None => rest,
        }
    }
}

/// The route filter: keeps a record of interface `if_index` whose destination
/// and gateway are IPv4 and whose gateway is specified, and turns its prefix
/// length into a mask. A prefix longer than 32 bits is malformed and rejected.
pub fn route_warp(route: RouteRecord, if_index: u32) -> (r: Option<RouteEntry>)
    ensures
        r == filtered(route, if_index),
{
    if let Some(index) = route.ifindex {
        if index == if_index {
            if let IpAddress::V4(dest) = route.destination {
                if let Some(IpAddress::V4(gateway)) = route.gateway {
                    if gateway != 0 && route.prefix <= 32 {
                        let mask = prefix_to_mask(route.prefix);
                        return Some(RouteEntry { destination: dest, mask, gateway });
                    }
                }
            }
        }
    }
    None
}

/// Runs every record of a complete route listing through the filter and keeps,
/// in order, the entries of those that pass.
pub fn filter_routes(routes: &Vec<RouteRecord>, if_index: u32) -> (r: Vec<RouteEntry>)
    ensures
        r@ == filter_seq(routes@, if_index),
{
    let mut out: Vec<RouteEntry> = Vec::new();
    let mut i: usize = 0;
    while i < routes.len()
        invariant
            i <= routes@.len(),
            out@ == filter_seq(routes@.take(i as int), if_index),
        decreases routes@.len() - i,
    {
        assert(routes@.take(i as int + 1).drop_last() =~= routes@.take(i as int));
        if let Some(e) = route_warp(routes[i], if_index) {
            out.push(e);
        }
        i += 1;
    }
    assert(routes@.take(i as int) =~= routes@);
    out
}

} // verus!
