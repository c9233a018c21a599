use florasat_statistics::decode_routes;
use florasat_statistics::decode_sat_stats;
use florasat_statistics::encode_routes;
use florasat_statistics::encode_sat_stats;
use florasat_statistics::single_bits_from_uint;
use florasat_statistics::Hop;
use florasat_statistics::Route;
use florasat_statistics::Satellite;
use florasat_statistics::State;

fn sample_routes() -> Vec<Route> {
    vec![
        Route {
            pid: 1,
            length: 734,
            hops: vec![
                Hop {
                    typ: b'G',
                    id: 10,
                    lat_bits: 48.1f32.to_bits(),
                    lon_bits: 11.5f32.to_bits(),
                    alt: 0,
                },
                Hop {
                    typ: b'S',
                    id: 20,
                    lat_bits: 49.0f32.to_bits(),
                    lon_bits: 12.0f32.to_bits(),
                    alt: 550,
                },
            ],
        },
        Route {
            pid: 2,
            length: 0,
            hops: vec![Hop {
                typ: b'S',
                id: 21,
                lat_bits: (-50.0f32).to_bits(),
                lon_bits: 179.9f32.to_bits(),
                alt: 550,
            }],
        },
    ]
}

fn sample_sats() -> Vec<Satellite> {
    vec![
        Satellite {
            sat_id: 0,
            entries: vec![
                State { start_bits: 0, qs: 0 },
                State { start_bits: 1.005243f32.to_bits(), qs: 1 },
            ],
        },
        Satellite {
            sat_id: 1,
            entries: vec![State { start_bits: 0, qs: 0 }],
        },
    ]
}

#[test]
fn route_artifact_round_trips_exactly() {
    let routes = sample_routes();
    let bytes = encode_routes(&routes);
    let decoded = decode_routes(&bytes).expect("a fresh encoding must decode");
    assert_eq!(decoded, routes);
}

#[test]
fn sat_stats_artifact_round_trips_exactly() {
    let sats = sample_sats();
    let bytes = encode_sat_stats(&sats);
    let decoded = decode_sat_stats(&bytes).expect("a fresh encoding must decode");
    assert_eq!(decoded, sats);
}

#[test]
fn empty_sequences_round_trip() {
    let routes: Vec<Route> = Vec::new();
    let sats: Vec<Satellite> = Vec::new();
    assert_eq!(decode_routes(&encode_routes(&routes)).unwrap(), routes);
    assert_eq!(decode_sat_stats(&encode_sat_stats(&sats)).unwrap(), sats);
}

#[test]
fn sat_artifact_has_the_documented_layout() {
    let sats = vec![Satellite { sat_id: 7, entries: vec![State { start_bits: 3, qs: 2 }] }];
    let bytes = encode_sat_stats(&sats);
    assert_eq!(
        bytes,
        vec![
            1, 0, 0, 0, // satellite count
            7, 0, 0, 0, // sat_id
            1, 0, 0, 0, // entry count
            3, 0, 0, 0, // start_bits
            2, 0, 0, 0, // qs
        ]
    );
}

#[test]
fn truncated_artifact_fails_to_decode() {
    let mut bytes = encode_sat_stats(&sample_sats());
    bytes.pop();
    assert!(decode_sat_stats(&bytes).is_err());
    let mut rbytes = encode_routes(&sample_routes());
    rbytes.pop();
    assert!(decode_routes(&rbytes).is_err());
}

#[test]
fn trailing_bytes_fail_to_decode() {
    let mut bytes = encode_sat_stats(&sample_sats());
    bytes.push(0);
    assert!(decode_sat_stats(&bytes).is_err());
    let mut rbytes = encode_routes(&sample_routes());
    rbytes.push(0);
    assert!(decode_routes(&rbytes).is_err());
}

#[test]
fn empty_payload_fails_to_decode() {
    let bytes: Vec<u8> = Vec::new();
    assert!(decode_sat_stats(&bytes).is_err());
    assert!(decode_routes(&bytes).is_err());
}

#[test]
fn impossible_count_fails_to_decode() {
    // A count of 2 satellites with no bytes behind it.
    let bytes = vec![2, 0, 0, 0];
    assert!(decode_sat_stats(&bytes).is_err());
}

#[test]
fn single_bits_match_ieee_single_precision() {
    for n in [0u32, 1, 2, 3, 5, 10, 12, 100, 255, 256, 65535, 1 << 20, (1 << 24) - 1] {
        assert_eq!(single_bits_from_uint(n), (n as f32).to_bits(), "bits of {}", n);
    }
}
