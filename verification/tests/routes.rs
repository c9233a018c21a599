use florasat_statistics::build_routes;
use florasat_statistics::set_length;
use florasat_statistics::Hop;
use florasat_statistics::HopRecord;

fn hop_rec(pid: u32, typ: u8, id: u32, lat: f32, lon: f32, alt: u16) -> HopRecord {
    HopRecord { pid, typ, id, lat_bits: lat.to_bits(), lon_bits: lon.to_bits(), alt }
}

#[test]
fn grouping_splits_contiguous_identifier_runs() {
    let records = vec![
        hop_rec(1, b'G', 10, 48.1, 11.5, 0),
        hop_rec(1, b'S', 20, 49.0, 12.0, 550),
        hop_rec(2, b'G', 10, 48.1, 11.5, 0),
        hop_rec(2, b'S', 21, 50.0, 13.0, 550),
        hop_rec(2, b'G', 11, 52.5, 13.4, 0),
    ];
    let routes = build_routes(&records);
    assert_eq!(routes.len(), 2);
    assert_eq!(routes[0].pid, 1);
    assert_eq!(routes[0].hops.len(), 2);
    assert_eq!(routes[1].pid, 2);
    assert_eq!(routes[1].hops.len(), 3);
    assert_eq!(routes[0].hops[1].id, 20);
    assert_eq!(routes[1].hops[2].id, 11);
    assert_eq!(routes[0].length, 0);
    assert_eq!(routes[1].length, 0);
}

#[test]
fn separated_runs_of_one_identifier_become_two_routes() {
    let records = vec![
        hop_rec(5, b'G', 1, 0.0, 0.0, 0),
        hop_rec(6, b'G', 2, 1.0, 1.0, 0),
        hop_rec(5, b'G', 3, 2.0, 2.0, 0),
    ];
    let routes = build_routes(&records);
    assert_eq!(routes.len(), 3);
    assert_eq!(routes[0].pid, 5);
    assert_eq!(routes[1].pid, 6);
    assert_eq!(routes[2].pid, 5);
    assert_eq!(routes[2].hops[0].id, 3);
}

#[test]
fn empty_input_yields_no_routes() {
    let records: Vec<HopRecord> = Vec::new();
    let routes = build_routes(&records);
    assert!(routes.is_empty());
}

#[test]
fn single_record_yields_one_single_hop_route() {
    let records = vec![hop_rec(7, b'S', 42, -10.25, 170.5, 550)];
    let routes = build_routes(&records);
    assert_eq!(routes.len(), 1);
    assert_eq!(routes[0].pid, 7);
    assert_eq!(
        routes[0].hops,
        vec![Hop {
            typ: b'S',
            id: 42,
            lat_bits: (-10.25f32).to_bits(),
            lon_bits: 170.5f32.to_bits(),
            alt: 550,
        }]
    );
}

#[test]
fn set_length_updates_only_the_length() {
    let records = vec![hop_rec(1, b'G', 10, 48.1, 11.5, 0), hop_rec(1, b'S', 20, 49.0, 12.0, 550)];
    let mut routes = build_routes(&records);
    let hops_before = routes[0].hops.clone();
    set_length(&mut routes[0], 734);
    assert_eq!(routes[0].length, 734);
    assert_eq!(routes[0].pid, 1);
    assert_eq!(routes[0].hops, hops_before);
}
