use tscodec::bits::{zigzag, BitWriter};
use tscodec::codec::packed::{choose_exponent, cost_bits, frame, WIDTH_BITS};
use tscodec::codec::{decode as decode_block, Alp, Codec, Packed, TAG_GORILLA, TAG_PACKED};
use tscodec::{Error, Point};

fn at(timestamp: i64, value: f64) -> Point {
    Point::new(timestamp, value.to_bits())
}

fn roundtrip(points: &[Point]) -> Vec<u8> {
    let block = Packed.encode(points).unwrap();
    assert_eq!(decode_block(&block).unwrap(), points);
    block
}

fn tenths(count: i64) -> Vec<Point> {
    (0..count)
        .map(|i| at(1_700_000_000 + i * 3600, 8.0 + (i % 30) as f64 / 10.0))
        .collect()
}

#[test]
fn packed_empty_and_single_point_blocks() {
    roundtrip(&[]);
    roundtrip(&[at(1_700_000_000, 21.5)]);
}

#[test]
fn two_points_are_a_vector_of_one_delta() {
    roundtrip(&[at(0, 1.5), at(3600, 1.6)]);
}

/// Every vector boundary, so an off-by-one in the chunking shows up rather than hiding in the
/// middle of a long block.
#[test]
fn lengths_around_the_vector_boundary() {
    for count in [1022, 1023, 1024, 1025, 1026, 2047, 2048, 2049] {
        let points = tenths(count);
        assert_eq!(decode_block(&roundtrip(&points)).unwrap(), points);
    }
}

/// A vector of identical deltas has a span of zero, so the width is zero and the values occupy
/// no bits at all.
#[test]
fn a_constant_series_stores_no_value_bits() {
    let points: Vec<Point> = (0..2000)
        .map(|i| at(1_700_000_000 + i * 3600, 15.5))
        .collect();
    let block = roundtrip(&points);
    assert_eq!(block[0], TAG_PACKED);
    // What is left is the timestamps, one bit each for a steady cadence, plus the header.
    let bits_per_point = block.len() as f64 * 8.0 / points.len() as f64;
    assert!(
        bits_per_point < 1.2,
        "constant series took {bits_per_point:.2} bits a point, so the values cost something"
    );
}

#[test]
fn packed_special_values_survive_as_patches() {
    for odd in [f64::NAN, f64::INFINITY, f64::NEG_INFINITY, -0.0, 1e300] {
        let mut points = tenths(100);
        points[7].value = odd.to_bits();
        let block = roundtrip(&points);
        assert_eq!(
            block[0], TAG_PACKED,
            "value {odd:?} should have been patched"
        );
    }
}

#[test]
fn a_block_that_will_not_scale_falls_back() {
    let mut value = 1.0f64;
    let points: Vec<Point> = (0..500)
        .map(|i| {
            value = f64::from_bits(value.to_bits() + 1);
            at(1_700_000_000 + i * 60, value)
        })
        .collect();
    assert_eq!(roundtrip(&points)[0], TAG_GORILLA);
}

#[test]
fn extreme_deltas_do_not_overflow_the_width() {
    let points = vec![
        at(0, i64::MIN as f64),
        at(3600, i64::MAX as f64),
        at(7200, 0.0),
    ];
    roundtrip(&points);
}

/// The point of the codec: on a steady series every delta is the same handful of bits, and
/// paying a fixed width beats paying a prefix per value.
#[test]
fn beats_delta_of_delta_on_a_steady_series() {
    let points: Vec<Point> = (0..4000)
        .map(|i| {
            let daily = (i as f64 / 24.0 * core::f64::consts::TAU).sin() * 6.0;
            at(
                1_700_000_000 + i * 3600,
                ((12.0 + daily) * 10.0).round() / 10.0,
            )
        })
        .collect();
    let packed = Packed.encode(&points).unwrap().len();
    let alp = Alp.encode(&points).unwrap().len();
    assert!(packed < alp, "packed {packed} should beat alp {alp}");
}

#[test]
fn a_width_past_sixty_four_is_an_error_not_a_panic() {
    let mut w = BitWriter::new();
    w.write_varint(2);
    w.write_bits(0, 8);
    w.write_bit(false);
    w.write_varint(zigzag(0));
    w.write_varint(zigzag(0));
    w.write_bits(0, 1); // the timestamp delta-of-delta
    w.write_varint(zigzag(0));
    w.write_bits(127, WIDTH_BITS);
    let mut block = vec![TAG_PACKED];
    block.extend_from_slice(&w.finish());
    assert_eq!(decode_block(&block), Err(Error::MalformedBlock));
}

#[test]
fn packed_is_called_packed() {
    assert_eq!(Packed.name(), "packed");
}

#[test]
fn a_frame_is_the_minimum_and_the_width_of_the_span() {
    assert_eq!(frame(&[5]), (5, 0));
    assert_eq!(frame(&[3, 3, 3]), (3, 0));
    assert_eq!(frame(&[-1, 0]), (-1, 1));
    assert_eq!(frame(&[7, -1, 4]), (-1, 4));
    assert_eq!(frame(&[1_000_000, 1_000_031]), (1_000_000, 5));
    assert_eq!(frame(&[i64::MAX, i64::MIN]), (i64::MIN, 64));
}

/// Three deltas of 1, 1 and 0 (the patch repeats the integer before it): one bit each.
#[test]
fn a_run_costs_its_vector_and_its_patches() {
    let points = [at(0, 8.0), at(1, 8.1), at(2, 8.2), at(3, f64::NAN)];
    assert_eq!(cost_bits(&points, 1), 3 + 64 + 7 + 72);
    assert_eq!(cost_bits(&points[3..], 1), 72);
    assert_eq!(cost_bits(&[], 1), 0);
    assert_eq!(cost_bits(&points[..1], 1), 0);
}

#[test]
fn the_cheapest_exponent_is_chosen() {
    assert_eq!(choose_exponent(&tenths(200)), 1);
    assert_eq!(choose_exponent(&[]), 0);
}

/// count 3, exponent 0, no patches, timestamp 0, integer 1, timestamps 0 and 0, then the deltas
/// 1 and 3: a minimum of 1 and two bits each.
#[test]
fn an_exact_packed_block() {
    let points = [at(0, 1.0), at(0, 2.0), at(0, 5.0)];
    let mut w = BitWriter::new();
    w.write_varint(3);
    w.write_bits(0, 8);
    w.write_bit(false);
    w.write_varint(0);
    w.write_varint(2);
    w.write_bits(0b00, 2);
    w.write_varint(2);
    w.write_bits(2, 7);
    w.write_bits(0b00_10, 4);
    let mut expected = vec![0x06];
    expected.extend_from_slice(&w.finish());
    assert_eq!(Packed.encode(&points), Ok(expected));
}

/// Two vectors that differ in width: the outlier is paid for in its own vector only.
#[test]
fn an_outlier_taxes_its_own_vector() {
    let mut points: Vec<Point> = (0..2049).map(|i| at(i, (i % 2) as f64)).collect();
    let steady = roundtrip(&points).len();
    points[2000].value = 1_000_000.0f64.to_bits();
    let taxed = roundtrip(&points).len();
    assert!(taxed > steady + 1024 && taxed < steady + 1024 * 3);
}

#[test]
fn a_truncated_packed_block_is_an_error() {
    let block = roundtrip(&tenths(100));
    for len in 0..block.len() {
        assert!(decode_block(&block[..len]).is_err());
    }
}
