use florasat_statistics::timestamp_projections;

fn projections_of(t: f32) -> Option<(u32, u32)> {
    timestamp_projections(t.to_bits())
}

#[test]
fn projections_match_float_round_and_ceil() {
    let samples: [f32; 14] = [
        0.0, 0.25, 0.5, 1.0, 1.005243, 2.5, 3.0, 3.49, 3.5, 12.0, 100.75, 8388608.5, 16777215.0,
        1e-40,
    ];
    for t in samples {
        assert_eq!(
            projections_of(t),
            Some((t.round() as u32, t.ceil() as u32)),
            "projections of {}",
            t
        );
    }
}

#[test]
fn half_fractions_round_away_from_zero() {
    assert_eq!(projections_of(0.5), Some((1, 1)));
    assert_eq!(projections_of(2.5), Some((3, 3)));
    assert_eq!(projections_of(3.5), Some((4, 4)));
}

#[test]
fn rejected_timestamps_yield_none() {
    assert_eq!(projections_of(-1.0), None);
    assert_eq!(projections_of(-0.5), None);
    assert_eq!(projections_of(f32::NAN), None);
    assert_eq!(projections_of(f32::INFINITY), None);
    assert_eq!(projections_of(16777216.0), None);
}
