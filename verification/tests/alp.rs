use tscodec::bits::{BitReader, BitWriter};
use tscodec::codec::alp::{choose_exponent, cost_bits, sample_runs, split, varint_bits};
use tscodec::codec::{
    decode as decode_block, Alp, Codec, Decimal, Gorilla, TAG_ALP, TAG_GORILLA,
};
use tscodec::{Error, Point};

fn at(timestamp: i64, value: f64) -> Point {
    Point::new(timestamp, value.to_bits())
}

fn roundtrip(points: &[Point]) -> Vec<u8> {
    let block = Alp.encode(points).unwrap();
    assert_eq!(decode_block(&block).unwrap(), points);
    block
}

/// Reads the exponent back out of a block rather than assuming where it landed, since the
/// varint count ahead of it has no fixed width.
fn exponent_of(block: &[u8]) -> u8 {
    let mut r = BitReader::new(&block[1..]);
    r.read_varint().unwrap();
    r.read_bits(8).unwrap() as u8
}

fn tenths(count: i64) -> Vec<Point> {
    (0..count)
        .map(|i| at(1_700_000_000 + i * 3600, 8.0 + (i % 30) as f64 / 10.0))
        .collect()
}

#[test]
fn alp_empty_and_single_point_blocks() {
    roundtrip(&[]);
    roundtrip(&[at(1_700_000_000, 21.5)]);
}

#[test]
fn tenths_of_a_degree_pick_exponent_one() {
    let block = roundtrip(&tenths(200));
    assert_eq!(block[0], TAG_ALP);
    assert_eq!(exponent_of(&block), 1);
}

/// The reason this codec exists: one awkward value drags a whole decimal block to Gorilla.
#[test]
fn one_awkward_value_becomes_a_patch_instead_of_sinking_the_block() {
    let mut points = tenths(100);
    points[50].value = std::f64::consts::PI.to_bits();
    let block = roundtrip(&points);

    assert_eq!(block[0], TAG_ALP);
    assert_eq!(exponent_of(&block), 1);
    assert_eq!(Decimal.encode(&points).unwrap()[0], TAG_GORILLA);
    assert!(
        block.len() < Decimal.encode(&points).unwrap().len(),
        "alp {} bytes should beat the gorilla fallback {} bytes",
        block.len(),
        Decimal.encode(&points).unwrap().len()
    );
}

#[test]
fn alp_special_values_survive_as_patches() {
    for odd in [f64::NAN, f64::INFINITY, f64::NEG_INFINITY, -0.0, 1e300] {
        let mut points = tenths(100);
        points[7].value = odd.to_bits();
        let block = roundtrip(&points);
        assert_eq!(block[0], TAG_ALP, "value {odd:?} should have been patched");
    }
}

/// A patch at the first point has no earlier integer to repeat, and the first integer is the one
/// written whole ahead of the delta stream.
#[test]
fn a_patch_on_the_first_point_roundtrips() {
    let mut points = tenths(100);
    points[0].value = f64::NAN.to_bits();
    assert_eq!(roundtrip(&points)[0], TAG_ALP);
}

#[test]
fn adjacent_patches_roundtrip() {
    let mut points = tenths(100);
    for point in &mut points[40..44] {
        point.value = std::f64::consts::E.to_bits();
    }
    assert_eq!(roundtrip(&points)[0], TAG_ALP);
}

#[test]
fn a_block_that_will_not_scale_falls_back_rather_than_patching_every_point() {
    let mut value = 1.0f64;
    let points: Vec<Point> = (0..500)
        .map(|i| {
            value = f64::from_bits(value.to_bits() + 1);
            at(1_700_000_000 + i * 60, value)
        })
        .collect();
    let block = roundtrip(&points);
    assert_eq!(block[0], TAG_GORILLA);
    assert_eq!(block.len(), Gorilla.encode(&points).unwrap().len());
}

/// Choosing by size rather than by the first scale that fits: every value here is representable
/// at exponent 3, but the readings are whole numbers apart from two.
#[test]
fn prefers_patching_two_values_over_scaling_five_hundred() {
    let mut points: Vec<Point> = (0..500)
        .map(|i| at(1_700_000_000 + i * 3600, (1000 + i % 7) as f64))
        .collect();
    points[100].value = 1000.125f64.to_bits();
    points[300].value = 1002.375f64.to_bits();

    let block = roundtrip(&points);
    assert_eq!(exponent_of(&block), 0);
    assert!(
        block.len() < Decimal.encode(&points).unwrap().len(),
        "alp {} bytes should beat decimal at scale 3",
        block.len()
    );
}

#[test]
fn a_patch_index_past_the_end_is_an_error_not_a_panic() {
    let mut w = BitWriter::new();
    w.write_varint(4);
    w.write_bits(0, 8);
    w.write_bit(true);
    w.write_varint(1);
    w.write_varint(9); // only four points exist
    w.write_bits(0, 64);
    let mut block = vec![TAG_ALP];
    block.extend_from_slice(&w.finish());
    assert_eq!(decode_block(&block), Err(Error::MalformedBlock));
}

#[test]
fn an_exponent_past_the_table_is_an_error_not_a_panic() {
    let mut w = BitWriter::new();
    w.write_varint(1);
    w.write_bits(200, 8);
    let mut block = vec![TAG_ALP];
    block.extend_from_slice(&w.finish());
    assert_eq!(decode_block(&block), Err(Error::MalformedBlock));
}

#[test]
fn beats_gorilla_on_station_shaped_data() {
    let points: Vec<Point> = (0..2000)
        .map(|i| {
            let daily = (i as f64 / 24.0 * std::f64::consts::TAU).sin() * 6.0;
            at(
                1_700_000_000 + i * 3600,
                ((12.0 + daily) * 10.0).round() / 10.0,
            )
        })
        .collect();
    let alp = Alp.encode(&points).unwrap().len();
    let gorilla = Gorilla.encode(&points).unwrap().len();
    assert!(
        alp < gorilla,
        "alp {alp} bytes should beat gorilla {gorilla}"
    );
}

#[test]
fn alp_is_called_alp() {
    assert_eq!(Alp.name(), "alp");
}

#[test]
fn more_patches_than_points_are_an_error() {
    let mut w = BitWriter::new();
    w.write_varint(2);
    w.write_bits(0, 8);
    w.write_bit(true);
    w.write_varint(3);
    let mut block = vec![TAG_ALP];
    block.extend_from_slice(&w.finish());
    assert_eq!(decode_block(&block), Err(Error::MalformedBlock));
}

#[test]
fn a_patch_gap_that_overflows_is_an_error() {
    let mut w = BitWriter::new();
    w.write_varint(4);
    w.write_bits(0, 8);
    w.write_bit(true);
    w.write_varint(2);
    w.write_varint(3);
    w.write_bits(0, 64);
    w.write_varint(u64::MAX);
    w.write_bits(0, 64);
    let mut block = vec![TAG_ALP];
    block.extend_from_slice(&w.finish());
    assert_eq!(decode_block(&block), Err(Error::MalformedBlock));
}

/// Two patches at the same place: the later one stands.
#[test]
fn a_later_patch_overrides_an_earlier_one() {
    let mut w = BitWriter::new();
    w.write_varint(1);
    w.write_bits(0, 8);
    w.write_bit(true);
    w.write_varint(1);
    w.write_varint(0);
    w.write_bits(77, 64);
    w.write_varint(10); // timestamp 5
    w.write_varint(0);
    let mut block = vec![TAG_ALP];
    block.extend_from_slice(&w.finish());
    assert_eq!(decode_block(&block), Ok(vec![Point::new(5, 77)]));

    let mut w = BitWriter::new();
    w.write_varint(2);
    w.write_bits(0, 8);
    w.write_bit(true);
    w.write_varint(2);
    w.write_varint(1);
    w.write_bits(77, 64);
    w.write_varint(0);
    w.write_bits(78, 64);
    w.write_varint(0);
    w.write_varint(2); // integer 1
    w.write_bits(0, 1);
    w.write_bits(0, 1);
    let mut block = vec![TAG_ALP];
    block.extend_from_slice(&w.finish());
    assert_eq!(
        decode_block(&block),
        Ok(vec![at(0, 1.0), Point::new(0, 78)])
    );
}

/// A reading that does not scale repeats the integer before it, and is listed with its place.
#[test]
fn split_fills_forward() {
    let points = [
        at(0, std::f64::consts::PI),
        at(1, 1.5),
        at(2, f64::NAN),
        at(3, f64::INFINITY),
        at(4, -2.5),
    ];
    let (integers, exceptions) = split(&points, 1);
    assert_eq!(integers, vec![0, 15, 15, 15, -25]);
    assert_eq!(
        exceptions,
        vec![
            (0, std::f64::consts::PI.to_bits()),
            (2, f64::NAN.to_bits()),
            (3, f64::INFINITY.to_bits())
        ]
    );
}

#[test]
fn short_blocks_are_priced_whole_and_long_ones_by_four_runs() {
    let short = tenths(512);
    assert_eq!(sample_runs(&short), vec![&short[..]]);
    let long = tenths(1000);
    assert_eq!(
        sample_runs(&long),
        vec![
            &long[0..128],
            &long[250..378],
            &long[500..628],
            &long[750..878]
        ]
    );
    let none: [Point; 0] = [];
    assert_eq!(sample_runs(&none), vec![&none[..]]);
}

#[test]
fn varints_take_a_byte_for_every_seven_bits() {
    assert_eq!(varint_bits(0), 8);
    assert_eq!(varint_bits(127), 8);
    assert_eq!(varint_bits(128), 16);
    assert_eq!(varint_bits(16_383), 16);
    assert_eq!(varint_bits(16_384), 24);
    assert_eq!(varint_bits(u64::MAX), 80);
}

/// 80 zigzags to 160, two bytes; the steps 1, 1 then 0 are changes of 1, 0 and -1.
#[test]
fn a_run_costs_what_the_encoder_would_write() {
    let points = [at(0, 8.0), at(1, 8.1), at(2, 8.2), at(3, f64::NAN)];
    assert_eq!(cost_bits(&points, 1), 16 + 9 + 1 + 9 + 72);
    assert_eq!(cost_bits(&[], 1), 0);
    assert_eq!(cost_bits(&points[3..], 0), 8 + 72);
}

#[test]
fn ties_go_to_the_smaller_exponent() {
    assert_eq!(choose_exponent(&[]), 0);
    let zeros: Vec<Point> = (0..10).map(|i| at(i, 0.0)).collect();
    assert_eq!(choose_exponent(&zeros), 0);
}

/// One patch to four points is still patched; past that the block falls back.
#[test]
fn the_fallback_starts_past_one_patch_in_four() {
    let mut points: Vec<Point> = (0..8).map(|i| at(i, (i % 2) as f64)).collect();
    points[2].value = f64::NAN.to_bits();
    points[5].value = f64::NAN.to_bits();
    assert_eq!(roundtrip(&points)[0], TAG_ALP);
    points[7].value = f64::NAN.to_bits();
    let block = roundtrip(&points);
    assert_eq!(block, Gorilla.encode(&points).unwrap());
}

/// An ALP block without patches is the decimal block with one more bit.
#[test]
fn an_exact_block() {
    let points = [at(1, 1.5), at(2, 1.6)];
    // count 2, exponent 1, no patches, timestamp 1, integer 15, then 1 and 1 in 7-bit buckets.
    let mut w = BitWriter::new();
    w.write_varint(2);
    w.write_bits(1, 8);
    w.write_bit(false);
    w.write_varint(2);
    w.write_varint(30);
    w.write_bits(0b10_0000001, 9);
    w.write_bits(0b10_0000001, 9);
    let mut expected = vec![0x05];
    expected.extend_from_slice(&w.finish());
    assert_eq!(Alp.encode(&points), Ok(expected));
}

/// A patch is its distance from the one before in a varint, and its 64 bits.
#[test]
fn an_exact_block_with_a_patch() {
    let mut points = vec![at(0, 1.0); 5];
    points[1].value = f64::NAN.to_bits();
    let mut w = BitWriter::new();
    w.write_varint(5);
    w.write_bits(0, 8);
    w.write_bit(true);
    w.write_varint(1);
    w.write_varint(1);
    w.write_bits(f64::NAN.to_bits(), 64);
    w.write_varint(0);
    w.write_varint(2);
    w.write_bits(0, 8);
    let mut expected = vec![TAG_ALP];
    expected.extend_from_slice(&w.finish());
    assert_eq!(Alp.encode(&points), Ok(expected));
}

/// Four bytes of decimal stream, and one bit more.
#[test]
fn a_block_without_patches_is_one_bit_longer_than_the_decimal_one() {
    let points = [at(1, 1.5)];
    assert_eq!(Decimal.encode(&points).unwrap().len(), 1 + 4);
    assert_eq!(Alp.encode(&points).unwrap().len(), 1 + 5);
}

/// A short block is priced whole, a long one by its runs, and no exponent is cheaper.
#[test]
fn no_exponent_is_cheaper_than_the_one_chosen() {
    for count in [5, 300, 2000] {
        let mut points: Vec<Point> = (0..count)
            .map(|i| at(i, (i * i % 97) as f64 / 100.0))
            .collect();
        points[3].value = f64::NAN.to_bits();
        let price = |e: u8| -> u64 {
            sample_runs(&points)
                .iter()
                .map(|run| cost_bits(run, e))
                .sum()
        };
        let chosen = choose_exponent(&points);
        for e in 0..=17 {
            assert!(price(chosen) <= price(e));
            assert!(e >= chosen || price(chosen) < price(e));
        }
    }
}

#[test]
fn encoding_is_deterministic() {
    let points = tenths(700);
    assert_eq!(Alp.encode(&points), Alp.encode(&points));
}
