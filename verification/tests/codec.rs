use rust_data_pipeline::bar::{
    bits_finite, bits_non_negative, bits_positive, InclusionPolicy, PriceBar,
};
use rust_data_pipeline::codec::{decode, encode};
use rust_data_pipeline::error::PipelineError;

fn bar(date: &str, open: f64, high: f64, low: f64, close: f64, volume: f64) -> PriceBar {
    PriceBar {
        date: date.to_string(),
        open: open.to_bits(),
        high: high.to_bits(),
        low: low.to_bits(),
        close: close.to_bits(),
        volume: volume.to_bits(),
    }
}

#[test]
fn empty_archive_is_tag_and_zero_count() {
    let bytes = encode(&Vec::new());
    assert_eq!(bytes, vec![80u8, 66, 65, 1, 0, 0, 0, 0, 0, 0, 0, 0]);
    assert_eq!(decode(&bytes), Ok(Vec::new()));
}

#[test]
fn one_bar_has_the_documented_layout() {
    let bytes = encode(&vec![bar("2024-01-01", 1.5, 2.0, 1.0, 1.75, 1000.0)]);
    let mut expected: Vec<u8> = vec![80, 66, 65, 1];
    expected.extend_from_slice(&1u64.to_le_bytes());
    expected.extend_from_slice(&10u64.to_le_bytes());
    expected.extend_from_slice(b"2024-01-01");
    expected.extend_from_slice(&[0, 0, 0, 0, 0, 0, 0xF8, 0x3F]);
    expected.extend_from_slice(&2.0f64.to_le_bytes());
    expected.extend_from_slice(&1.0f64.to_le_bytes());
    expected.extend_from_slice(&1.75f64.to_le_bytes());
    expected.extend_from_slice(&1000.0f64.to_le_bytes());
    assert_eq!(bytes.len(), 4 + 8 + 8 + 10 + 40);
    assert_eq!(bytes, expected);
}

#[test]
fn round_trip_keeps_bars_and_order() {
    let bars = vec![
        bar("2024-01-01", 10.25, 11.0, 9.5, 10.75, 123456.0),
        bar("2024-01-02", 10.75, 12.0, 10.5, 0.0, 0.0),
        bar("", 0.1, 0.2, 0.3, 0.4, 0.5),
        bar("día-ü-日付", 1e300, 5e-324, -0.0, 3.0, 4.0),
    ];
    let back = decode(&encode(&bars)).unwrap();
    assert_eq!(back, bars);
    assert_eq!(f64::from_bits(back[0].open), 10.25);
    assert_eq!(back[3].date, "día-ü-日付");
}

#[test]
fn round_trip_keeps_repeated_dates() {
    let bars = vec![bar("2024-01-01", 1.0, 1.0, 1.0, 1.0, 1.0), bar("2024-01-01", 2.0, 2.0, 2.0, 2.0, 2.0)];
    assert_eq!(decode(&encode(&bars)), Ok(bars));
}

#[test]
fn truncated_archive_is_corrupt() {
    let bytes = encode(&vec![
        bar("2024-01-01", 1.0, 2.0, 0.5, 1.5, 10.0),
        bar("2024-01-02", 1.5, 2.5, 1.0, 2.0, 20.0),
    ]);
    assert_eq!(bytes.len(), 12 + 58 + 58);
    for cut in 0..bytes.len() {
        let offset = if cut < 12 {
            0
        } else if cut < 12 + 58 {
            12
        } else {
            12 + 58
        };
        assert_eq!(decode(&bytes[..cut]), Err(PipelineError::CorruptArchive { offset }));
    }
    assert!(decode(&bytes).is_ok());
}

#[test]
fn count_beyond_the_bytes_is_corrupt() {
    let mut bytes = encode(&vec![bar("2024-01-01", 1.0, 2.0, 0.5, 1.5, 10.0)]);
    bytes[4] = 2;
    assert_eq!(decode(&bytes), Err(PipelineError::CorruptArchive { offset: 70 }));
    let mut huge = encode(&Vec::new());
    for i in 4..12 {
        huge[i] = 0xFF;
    }
    assert_eq!(decode(&huge), Err(PipelineError::CorruptArchive { offset: 12 }));
}

#[test]
fn date_length_beyond_the_bytes_is_corrupt() {
    let mut bytes = encode(&vec![bar("2024-01-01", 1.0, 2.0, 0.5, 1.5, 10.0)]);
    for i in 12..20 {
        bytes[i] = 0xFF;
    }
    assert_eq!(decode(&bytes), Err(PipelineError::CorruptArchive { offset: 12 }));
}

#[test]
fn trailing_bytes_are_corrupt() {
    let mut bytes = encode(&vec![bar("2024-01-01", 1.0, 2.0, 0.5, 1.5, 10.0)]);
    bytes.push(0);
    assert_eq!(decode(&bytes), Err(PipelineError::CorruptArchive { offset: 70 }));
}

#[test]
fn other_version_or_tag_is_corrupt() {
    let good = encode(&Vec::new());
    let mut other_version = good.clone();
    other_version[3] = 2;
    assert_eq!(decode(&other_version), Err(PipelineError::CorruptArchive { offset: 0 }));
    let mut other_tag = good.clone();
    other_tag[0] = 81;
    assert_eq!(decode(&other_tag), Err(PipelineError::CorruptArchive { offset: 0 }));
    assert_eq!(decode(&[]), Err(PipelineError::CorruptArchive { offset: 0 }));
}

#[test]
fn non_finite_number_is_corrupt() {
    for bad in [f64::NAN, f64::INFINITY, f64::NEG_INFINITY] {
        let bytes = encode(&vec![bar("2024-01-01", 1.0, 2.0, bad, 1.5, 10.0)]);
        assert_eq!(decode(&bytes), Err(PipelineError::CorruptArchive { offset: 12 }));
        let bytes = encode(&vec![
            bar("2024-01-01", 1.0, 2.0, 0.5, 1.5, 10.0),
            bar("2024-01-02", 1.0, 2.0, 0.5, 1.5, bad),
        ]);
        assert_eq!(decode(&bytes), Err(PipelineError::CorruptArchive { offset: 70 }));
    }
}

#[test]
fn date_that_is_not_utf8_is_corrupt() {
    let mut bytes = encode(&vec![bar("2024-01-01", 1.0, 2.0, 0.5, 1.5, 10.0)]);
    bytes[20] = 0xFF;
    assert_eq!(decode(&bytes), Err(PipelineError::CorruptArchive { offset: 12 }));
}

#[test]
fn negative_finite_number_is_read_back() {
    let bars = vec![bar("2024-01-01", -1.0, 2.0, 0.5, 1.5, 10.0)];
    let back = decode(&encode(&bars)).unwrap();
    assert_eq!(back, bars);
    assert!(back[0].is_finite());
    assert!(!back[0].is_valid());
}

#[test]
fn bar_validity_follows_the_numbers() {
    assert!(bar("d", 0.0, 0.0, 0.0, 0.0, 0.0).is_valid());
    assert!(bar("d", -0.0, 1.0, 1.0, 1.0, 1.0).is_valid());
    assert!(!bar("d", 1.0, 1.0, 1.0, -5e-324, 1.0).is_valid());
    assert!(!bar("d", 1.0, f64::INFINITY, 1.0, 1.0, 1.0).is_valid());
    assert!(!bar("d", 1.0, 1.0, f64::NAN, 1.0, 1.0).is_finite());
    assert!(bar("d", 1.0, 1.0, f64::MAX, 1.0, 1.0).is_finite());
    let b = bar("2024-01-05", 1.0, 2.0, 3.0, 4.0, 5.0);
    assert_eq!(b.duplicate(), b);
}

#[test]
fn bit_tests_agree_with_the_numbers() {
    let samples = [
        0.0, -0.0, 1.0, -1.0, 5e-324, -5e-324, f64::MAX, f64::MIN, f64::INFINITY,
        f64::NEG_INFINITY, f64::NAN, -f64::NAN, 123.456,
    ];
    for x in samples {
        assert_eq!(bits_finite(x.to_bits()), x.is_finite());
        assert_eq!(bits_non_negative(x.to_bits()), x >= 0.0);
        assert_eq!(bits_positive(x.to_bits()), x > 0.0);
    }
    assert_eq!(InclusionPolicy::default(), InclusionPolicy::AcceptAll);
}
