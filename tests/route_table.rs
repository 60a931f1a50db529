use route_mirror::route::RouteEntry;
use route_mirror::shared::ExternalRoute;
use route_mirror::table::RouteTable;

fn ip(a: u8, b: u8, c: u8, d: u8) -> u32 {
    u32::from_be_bytes([a, b, c, d])
}

fn entry(destination: u32, mask: u32, gateway: u32) -> RouteEntry {
    RouteEntry { destination, mask, gateway }
}

const MASK_24: u32 = 0xFFFF_FF00;

#[test]
fn two_subnets_route_to_their_gateways() {
    let table = ExternalRoute::new();
    table.update(vec![
        entry(ip(10, 0, 0, 0), MASK_24, ip(192, 168, 1, 1)),
        entry(ip(10, 0, 1, 0), MASK_24, ip(192, 168, 1, 2)),
    ]);
    assert_eq!(table.route(ip(10, 0, 0, 5)), Some(ip(192, 168, 1, 1)));
    assert_eq!(table.route(ip(10, 0, 1, 9)), Some(ip(192, 168, 1, 2)));
    assert_eq!(table.route(ip(192, 168, 0, 1)), None);
}

#[test]
fn empty_replace_has_no_route() {
    let table = ExternalRoute::new();
    assert_eq!(table.route(ip(10, 0, 0, 5)), None);
    table.update(vec![entry(ip(10, 0, 0, 0), MASK_24, ip(192, 168, 1, 1))]);
    table.update(vec![]);
    assert_eq!(table.route(ip(10, 0, 0, 5)), None);
    assert_eq!(table.route(0), None);
    assert_eq!(table.route(u32::MAX), None);
}

#[test]
fn default_route_is_tried_last() {
    let a = ip(192, 168, 1, 1);
    let b = ip(192, 168, 1, 2);
    let table = ExternalRoute::new();
    table.update(vec![entry(0, 0, a), entry(ip(10, 0, 0, 0), MASK_24, b)]);
    assert_eq!(table.route(ip(10, 0, 0, 5)), Some(b));
    assert_eq!(table.route(ip(8, 8, 8, 8)), Some(a));
}

#[test]
fn destinations_are_masked_and_sorted_descending() {
    let t = RouteTable::from_routes(vec![
        entry(ip(10, 0, 0, 77), MASK_24, 1),
        entry(ip(172, 16, 3, 4), 0xFFFF_0000, 2),
        entry(ip(10, 0, 1, 200), MASK_24, 3),
    ]);
    // 10.0.0.77/24 is stored as 10.0.0.0, so 10.0.0.1 is covered.
    assert_eq!(t.route(ip(10, 0, 0, 1)), Some(1));
    assert_eq!(t.route(ip(172, 16, 200, 9)), Some(2));
    assert_eq!(t.route(ip(10, 0, 1, 1)), Some(3));
    assert_eq!(t.route(ip(10, 0, 2, 1)), None);
}

#[test]
fn equal_destinations_keep_input_order() {
    // Both networks are stored as 10.0.0.0: the first one given is tried first.
    let t = RouteTable::from_routes(vec![
        entry(ip(10, 0, 0, 0), 0xFF00_0000, 1),
        entry(ip(10, 0, 0, 0), MASK_24, 2),
    ]);
    assert_eq!(t.route(ip(10, 0, 0, 5)), Some(1));
    let t = RouteTable::from_routes(vec![
        entry(ip(10, 0, 0, 0), MASK_24, 2),
        entry(ip(10, 0, 0, 0), 0xFF00_0000, 1),
    ]);
    assert_eq!(t.route(ip(10, 0, 0, 5)), Some(2));
    assert_eq!(t.route(ip(10, 9, 0, 5)), Some(1));
}

#[test]
fn later_replace_discards_earlier_snapshot() {
    let table = ExternalRoute::new();
    let reader = table.clone();
    table.update(vec![entry(ip(10, 0, 0, 0), MASK_24, 1)]);
    assert_eq!(reader.route(ip(10, 0, 0, 9)), Some(1));
    table.update(vec![entry(ip(10, 0, 1, 0), MASK_24, 2)]);
    assert_eq!(reader.route(ip(10, 0, 0, 9)), None);
    assert_eq!(reader.route(ip(10, 0, 1, 9)), Some(2));
}

#[test]
fn snapshot_is_masked_and_sorted() {
    let table = ExternalRoute::new();
    table.update(vec![
        entry(ip(10, 0, 0, 9), MASK_24, 1),
        entry(ip(10, 0, 5, 9), MASK_24, 2),
    ]);
    let snap = table.snapshot();
    assert_eq!(snap.route(ip(10, 0, 5, 1)), Some(2));
    assert_eq!(snap.route(ip(10, 0, 0, 1)), Some(1));
    table.update(vec![]);
    // A snapshot taken earlier stays whole.
    assert_eq!(snap.route(ip(10, 0, 5, 1)), Some(2));
}
