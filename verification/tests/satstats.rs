use florasat_statistics::transform_satstats;
use florasat_statistics::SatRecord;
use florasat_statistics::Satellite;
use florasat_statistics::State;

fn rec(sat_id: u32, timestamp: f32, queue_size: u32) -> SatRecord {
    SatRecord {
        sat_id,
        t_bits: timestamp.to_bits(),
        t_round: timestamp.round() as u32,
        t_ceil: timestamp.ceil() as u32,
        queue_size,
    }
}

fn state(start: f32, qs: u32) -> State {
    State { start_bits: start.to_bits(), qs }
}

#[test]
fn test_transform_satstats() {
    let records = vec![
        rec(0, 1.005243, 1),
        rec(1, 1.005246, 1),
        rec(0, 1.005443, 2),
        rec(0, 1.005463, 1),
        rec(1, 1.005563, 2),
        rec(0, 1.005663, 0),
        rec(1, 1.005763, 3),
        rec(1, 1.005765, 4),
        rec(1, 1.005773, 5),
        rec(0, 1.005863, 1),
        rec(0, 1.005864, 2),
    ];
    let routes = transform_satstats(&records);
    println!("{:?}", routes)
}

#[test]
fn cadence_fills_gaps_every_five_seconds() {
    let records = vec![rec(0, 12.0, 3)];
    let sats = transform_satstats(&records);
    assert_eq!(sats.len(), 1);
    assert_eq!(sats[0].sat_id, 0);
    assert_eq!(
        sats[0].entries,
        vec![state(0.0, 0), state(5.0, 0), state(10.0, 0), state(12.0, 3)]
    );
}

#[test]
fn no_synthetic_states_when_gap_is_below_cadence() {
    let records = vec![rec(0, 1.0, 1), rec(0, 3.0, 2)];
    let sats = transform_satstats(&records);
    assert_eq!(sats.len(), 1);
    assert_eq!(sats[0].entries, vec![state(0.0, 0), state(1.0, 1), state(3.0, 2)]);
}

#[test]
fn synthetic_states_carry_previous_queue_size() {
    let records = vec![rec(4, 2.5, 7), rec(4, 14.0, 1)];
    let sats = transform_satstats(&records);
    assert_eq!(sats.len(), 1);
    // round(2.5) == 3, so the grid restarts at 8 and fills 8, 13 below 14,
    // frozen at the previously observed queue size 7.
    assert_eq!(
        sats[0].entries,
        vec![state(0.0, 0), state(2.5, 7), state(8.0, 7), state(13.0, 7), state(14.0, 1)]
    );
}

#[test]
fn interleaving_does_not_change_per_satellite_series() {
    let a0 = rec(1, 3.0, 1);
    let a1 = rec(1, 9.0, 2);
    let b0 = rec(2, 4.0, 5);
    let b1 = rec(2, 20.0, 6);
    let interleaved = vec![a0, b0, a1, b1];
    let only_a = vec![a0, a1];
    let only_b = vec![b0, b1];

    let both: Vec<Satellite> = transform_satstats(&interleaved);
    let alone_a = transform_satstats(&only_a);
    let alone_b = transform_satstats(&only_b);

    assert_eq!(both.len(), 2);
    assert_eq!(both[0].sat_id, 1);
    assert_eq!(both[1].sat_id, 2);
    assert_eq!(both[0].entries, alone_a[0].entries);
    assert_eq!(both[1].entries, alone_b[0].entries);
}

#[test]
fn satellites_appear_in_order_of_first_record() {
    let records = vec![rec(9, 1.0, 1), rec(3, 1.5, 2), rec(9, 2.0, 0)];
    let sats = transform_satstats(&records);
    assert_eq!(sats.len(), 2);
    assert_eq!(sats[0].sat_id, 9);
    assert_eq!(sats[1].sat_id, 3);
}

#[test]
fn empty_input_yields_no_satellites() {
    let records: Vec<SatRecord> = Vec::new();
    let sats = transform_satstats(&records);
    assert!(sats.is_empty());
}
