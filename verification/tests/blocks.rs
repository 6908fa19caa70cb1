use tscodec::bits::{unzigzag, zigzag, BitReader, BitWriter};
use tscodec::codec::dod::{cost, Dod};
use tscodec::codec::{check_count, decode, Alp, Codec, Decimal, Gorilla, Packed, TAG_GORILLA};
use tscodec::{Error, Point};

fn at(timestamp: i64, value: f64) -> Point {
    Point::new(timestamp, value.to_bits())
}

#[test]
fn bits_are_most_significant_first_and_padded_with_zeros() {
    let mut w = BitWriter::new();
    w.write_bits(0b101, 3);
    w.write_bit(true);
    w.write_bits(0xffff, 2);
    assert_eq!(w.finish(), vec![0b1011_1100]);
    assert_eq!(BitWriter::with_capacity(10).finish(), Vec::<u8>::new());
}

#[test]
fn a_word_takes_eight_bytes() {
    let mut w = BitWriter::new();
    w.write_bits(0x0123_4567_89ab_cdef, 64);
    let bytes = w.finish();
    assert_eq!(bytes, vec![0x01, 0x23, 0x45, 0x67, 0x89, 0xab, 0xcd, 0xef]);
    let mut r = BitReader::new(&bytes);
    assert_eq!(r.read_bits(12), Ok(0x012));
    assert_eq!(r.read_bit(), Ok(false));
    assert_eq!(r.read_bits(51), Ok(0x3_4567_89ab_cdef));
    assert_eq!(r.read_bits(0), Ok(0));
    assert_eq!(r.read_bit(), Err(Error::MalformedBlock));
}

#[test]
fn varints_are_leb128() {
    let mut w = BitWriter::new();
    w.write_varint(300);
    assert_eq!(w.finish(), vec![0xac, 0x02]);
    for v in [0, 1, 127, 128, 16_383, 16_384, u32::MAX as u64, u64::MAX] {
        let mut w = BitWriter::new();
        w.write_bit(true);
        w.write_varint(v);
        let bytes = w.finish();
        let mut r = BitReader::new(&bytes);
        r.read_bit().unwrap();
        assert_eq!(r.read_varint(), Ok(v));
    }
}

#[test]
fn a_varint_that_does_not_fit_is_an_error() {
    let mut bytes = vec![0xff; 9];
    bytes.push(0x01);
    assert_eq!(BitReader::new(&bytes).read_varint(), Ok(u64::MAX));
    bytes[9] = 0x02;
    assert_eq!(
        BitReader::new(&bytes).read_varint(),
        Err(Error::MalformedBlock)
    );
    assert_eq!(
        BitReader::new(&[0x80; 11]).read_varint(),
        Err(Error::MalformedBlock)
    );
    assert_eq!(
        BitReader::new(&[0x80]).read_varint(),
        Err(Error::MalformedBlock)
    );
}

#[test]
fn zigzag_keeps_small_magnitudes_small() {
    assert_eq!(zigzag(0), 0);
    assert_eq!(zigzag(-1), 1);
    assert_eq!(zigzag(1), 2);
    assert_eq!(zigzag(-2), 3);
    assert_eq!(zigzag(i64::MAX), u64::MAX - 1);
    assert_eq!(zigzag(i64::MIN), u64::MAX);
    for v in [0, 1, -1, 64, -64, i64::MAX, i64::MIN] {
        assert_eq!(unzigzag(zigzag(v)), v);
    }
    let mut w = BitWriter::new();
    w.write_varint(zigzag(-3));
    let bytes = w.finish();
    assert_eq!(BitReader::new(&bytes).read_signed(), Ok(-3));
}

/// Both ends of every bucket, and the first values past them.
#[test]
fn every_bucket_costs_its_prefix_and_its_width() {
    let table: [(i64, i64, u32); 7] = [
        (-64, 63, 2 + 7),
        (-256, 255, 3 + 9),
        (-2048, 2047, 4 + 12),
        (-32768, 32767, 5 + 16),
        (-524288, 524287, 6 + 20),
        (-8388608, 8388607, 7 + 24),
        (-2147483648, 2147483647, 8 + 32),
    ];
    assert_eq!(cost(0), 1);
    for (index, &(low, high, bits)) in table.iter().enumerate() {
        assert_eq!(cost(low), bits);
        assert_eq!(cost(high), bits);
        let past = if index == 6 { 8 + 64 } else { table[index + 1].2 };
        assert_eq!(cost(low - 1), past);
        assert_eq!(cost(high + 1), past);
    }
    assert_eq!(cost(i64::MIN), 72);
    assert_eq!(cost(i64::MAX), 72);
}

#[test]
fn delta_of_delta_reads_back_what_it_wrote() {
    let values = [
        5,
        6,
        7,
        7,
        -100,
        3000,
        70_000,
        -9_000_000,
        i64::MAX,
        i64::MIN,
        0,
        1 << 40,
    ];
    let mut w = BitWriter::new();
    let mut state = Dod::new(4);
    for &value in &values {
        state.write(&mut w, value);
    }
    let bytes = w.finish();
    let mut r = BitReader::new(&bytes);
    let mut state = Dod::new(4);
    for &value in &values {
        assert_eq!(state.read(&mut r), Ok(value));
    }
}

/// A steady interval costs one bit to a value once it is established.
#[test]
fn a_steady_interval_costs_one_bit() {
    let mut w = BitWriter::new();
    let mut state = Dod::new(0);
    for i in 1..=64 {
        state.write(&mut w, 60 * i);
    }
    // The first interval is a change of 60, nine bits; the other 63 cost one bit each.
    assert_eq!(w.finish().len(), 9);
}

#[test]
fn gorilla_keeps_every_bit_pattern() {
    let mut points = vec![
        at(0, 1.0),
        at(60, 1.0),
        at(120, 1.5),
        at(180, 1.25),
        at(240, f64::NAN),
        at(300, -0.0),
        at(301, f64::INFINITY),
        Point::new(i64::MIN, u64::MAX),
        Point::new(i64::MAX, 1),
        Point::new(0, 0),
    ];
    let mut bits = 1u64;
    for i in 0..200 {
        bits = bits.wrapping_mul(6364136223846793005).wrapping_add(i);
        points.push(Point::new(i as i64, bits));
    }
    let block = Gorilla.encode(&points).unwrap();
    assert_eq!(block[0], TAG_GORILLA);
    assert_eq!(decode(&block).unwrap(), points);
    assert_eq!(Gorilla.name(), "gorilla");
}

/// One point, then the same value again: one bit for the timestamp, one for the value.
#[test]
fn an_exact_gorilla_block() {
    let points = [Point::new(-1, 0xff), Point::new(-1, 0xff)];
    let mut expected = vec![0x00, 2, 1];
    expected.extend_from_slice(&[0, 0, 0, 0, 0, 0, 0, 0xff]);
    expected.push(0b0000_0000);
    assert_eq!(Gorilla.encode(&points), Ok(expected));

    // 1.0 to 1.5 is a single bit at 51: leading 12, width 1.
    let points = [at(0, 1.0), at(0, 1.5)];
    let mut w = BitWriter::new();
    w.write_varint(2);
    w.write_varint(0);
    w.write_bits(1.0f64.to_bits(), 64);
    w.write_bit(false);
    w.write_bits(0b11, 2);
    w.write_bits(12, 5);
    w.write_bits(1, 6);
    w.write_bits(1, 1);
    let mut expected = vec![0x00];
    expected.extend_from_slice(&w.finish());
    assert_eq!(Gorilla.encode(&points), Ok(expected));
}

#[test]
fn gorilla_rejects_impossible_windows() {
    // A reused window before there is one.
    let mut w = BitWriter::new();
    w.write_varint(2);
    w.write_varint(0);
    w.write_bits(0, 64);
    w.write_bit(false);
    w.write_bits(0b10, 2);
    w.write_bits(0, 64);
    let mut block = vec![TAG_GORILLA];
    block.extend_from_slice(&w.finish());
    assert_eq!(decode(&block), Err(Error::MalformedBlock));

    // A window of 31 leading zeros and 34 bits.
    let mut w = BitWriter::new();
    w.write_varint(2);
    w.write_varint(0);
    w.write_bits(0, 64);
    w.write_bit(false);
    w.write_bits(0b11, 2);
    w.write_bits(31, 5);
    w.write_bits(34, 6);
    w.write_bits(0, 64);
    let mut block = vec![TAG_GORILLA];
    block.extend_from_slice(&w.finish());
    assert_eq!(decode(&block), Err(Error::MalformedBlock));
}

#[test]
fn an_unknown_tag_is_an_error() {
    assert_eq!(decode(&[0x77, 0]), Err(Error::UnknownCodec(0x77)));
    assert_eq!(decode(&[]), Err(Error::MalformedBlock));
    assert_eq!(decode(&[TAG_GORILLA]), Err(Error::MalformedBlock));
}

/// The point count says where a block ends, so what follows it changes nothing.
#[test]
fn bytes_after_a_block_change_nothing() {
    let points: Vec<Point> = (0..50)
        .map(|i| at(i * 60, (i % 7) as f64 / 10.0))
        .collect();
    let codecs: [&dyn Fn() -> Vec<u8>; 4] = [
        &|| Gorilla.encode(&points).unwrap(),
        &|| Decimal.encode(&points).unwrap(),
        &|| Alp.encode(&points).unwrap(),
        &|| Packed.encode(&points).unwrap(),
    ];
    for encode in codecs {
        let mut block = encode();
        assert_eq!(decode(&block).unwrap(), points);
        block.extend_from_slice(&[0xff, 0x00, 0xa5]);
        assert_eq!(decode(&block).unwrap(), points);
    }
}

/// No flipped bit makes decoding panic.
#[test]
fn flipped_bits_do_not_panic() {
    let mut points: Vec<Point> = (0..40)
        .map(|i| at(1_700_000_000 + i * 60, (i % 7) as f64 / 10.0))
        .collect();
    points[9].value = f64::NAN.to_bits();
    for block in [
        Gorilla.encode(&points).unwrap(),
        Decimal.encode(&points).unwrap(),
        Alp.encode(&points).unwrap(),
        Packed.encode(&points).unwrap(),
    ] {
        for position in 0..block.len() * 8 {
            let mut corrupt = block.clone();
            corrupt[position / 8] ^= 1 << (position % 8);
            let _ = decode(&corrupt);
        }
    }
}

#[test]
fn a_block_holds_at_most_u32_max_points() {
    let most = u32::MAX as usize;
    assert_eq!(check_count(0), Ok(()));
    assert_eq!(check_count(most), Ok(()));
    assert_eq!(check_count(most + 1), Err(Error::TooManyPoints(most + 1)));
}

#[test]
fn values_in_seven_bits_take_one_byte() {
    for (value, bytes) in [(0, 1), (63, 1), (-64, 1), (64, 2), (-65, 2)] {
        let mut w = BitWriter::new();
        w.write_varint(zigzag(value));
        assert_eq!(w.finish().len(), bytes);
    }
}
