use tscodec::bits::BitWriter;
use tscodec::codec::elf::{erase, rounded};
use tscodec::codec::{
    decode, Alp, Chimp, Chimp128, Codec, Decimal, Elf, Gorilla, Packed, TAG_CHIMP, TAG_CHIMP128,
    TAG_ELF,
};
use tscodec::{Error, Point};

fn at(timestamp: i64, value: f64) -> Point {
    Point::new(timestamp, value.to_bits())
}

fn block(tag: u8, w: BitWriter) -> Vec<u8> {
    let mut block = vec![tag];
    block.extend_from_slice(&w.finish());
    block
}

/// The start of a block of `count` points, the first of them at 0 with the pattern `value`.
fn header(count: u64, value: u64) -> BitWriter {
    let mut w = BitWriter::new();
    w.write_varint(count);
    w.write_varint(0);
    w.write_bits(value, 64);
    w
}

fn odd_patterns() -> Vec<Point> {
    let mut points = vec![
        at(0, 1.0),
        at(60, 1.0),
        at(120, 1.5),
        at(180, 1.25),
        at(240, f64::NAN),
        at(300, -0.0),
        at(301, f64::INFINITY),
        Point::new(i64::MIN, u64::MAX),
        Point::new(i64::MAX, 1),
        Point::new(0, 0),
    ];
    let mut bits = 1u64;
    for i in 0..400 {
        bits = bits.wrapping_mul(6364136223846793005).wrapping_add(i);
        points.push(Point::new(i as i64, bits));
        // A value with the same low bits as the one before.
        points.push(Point::new(i as i64, bits ^ (bits << 40)));
    }
    points
}

fn tenths(count: i64) -> Vec<Point> {
    (0..count)
        .map(|i| at(1_700_000_000 + i * 3600, 8.0 + (i % 30) as f64 / 10.0))
        .collect()
}

#[test]
fn chimp_keeps_every_bit_pattern() {
    let points = odd_patterns();
    for count in [0, 1, 2, points.len()] {
        let block = Chimp.encode(&points[..count]).unwrap();
        assert_eq!(block[0], TAG_CHIMP);
        assert_eq!(decode(&block).unwrap(), &points[..count]);
    }
    assert_eq!(Chimp.name(), "chimp");
}

/// Each of the four branches, bit for bit.
#[test]
fn an_exact_chimp_block() {
    let points = [
        Point::new(0, 0),
        Point::new(0, 0),
        Point::new(0, 3),
        Point::new(0, 2),
        Point::new(0, 2 | 1 << 51),
        Point::new(0, 3 | 1 << 51),
    ];
    let mut w = header(6, 0);
    // The same value again.
    w.write_bit(false);
    w.write_bits(0b00, 2);
    // 62 leading zeros count as 24.
    w.write_bit(false);
    w.write_bits(0b11, 2);
    w.write_bits(7, 3);
    w.write_bits(3, 40);
    // As many as before.
    w.write_bit(false);
    w.write_bits(0b10, 2);
    w.write_bits(1, 40);
    // 12 leading zeros, 51 trailing.
    w.write_bit(false);
    w.write_bits(0b01, 2);
    w.write_bits(2, 3);
    w.write_bits(1, 6);
    w.write_bits(1, 1);
    // The leading zeros have to be stated again.
    w.write_bit(false);
    w.write_bits(0b11, 2);
    w.write_bits(7, 3);
    w.write_bits(1, 40);
    assert_eq!(Chimp.encode(&points), Ok(block(TAG_CHIMP, w)));
}

/// A repeated value leaves the stated leading zeros as they were.
#[test]
fn a_repeated_value_keeps_the_leading_zeros() {
    let points = [
        Point::new(0, 0),
        Point::new(0, 3),
        Point::new(0, 3),
        Point::new(0, 2),
    ];
    let mut w = header(4, 0);
    w.write_bit(false);
    w.write_bits(0b11, 2);
    w.write_bits(7, 3);
    w.write_bits(3, 40);
    w.write_bit(false);
    w.write_bits(0b00, 2);
    w.write_bit(false);
    w.write_bits(0b10, 2);
    w.write_bits(1, 40);
    assert_eq!(Chimp.encode(&points), Ok(block(TAG_CHIMP, w)));
}

/// Six trailing zeros are not worth storing, seven are.
#[test]
fn trailing_zeros_are_stored_from_seven_on() {
    let mut w = header(2, 0);
    w.write_bit(false);
    w.write_bits(0b11, 2);
    w.write_bits(7, 3);
    w.write_bits(1 << 6, 40);
    assert_eq!(
        Chimp.encode(&[Point::new(0, 0), Point::new(0, 1 << 6)]),
        Ok(block(TAG_CHIMP, w))
    );
    let mut w = header(2, 0);
    w.write_bit(false);
    w.write_bits(0b01, 2);
    w.write_bits(7, 3);
    w.write_bits(64 - 24 - 7, 6);
    w.write_bits(1, 33);
    assert_eq!(
        Chimp.encode(&[Point::new(0, 0), Point::new(0, 1 << 7)]),
        Ok(block(TAG_CHIMP, w))
    );
}

/// Both ends of every bucket of leading zeros.
#[test]
fn leading_zeros_are_rounded_down() {
    for (zeros, index, leading) in [
        (0, 0, 0),
        (7, 0, 0),
        (8, 1, 8),
        (11, 1, 8),
        (12, 2, 12),
        (15, 2, 12),
        (16, 3, 16),
        (17, 3, 16),
        (18, 4, 18),
        (19, 4, 18),
        (20, 5, 20),
        (21, 5, 20),
        (22, 6, 22),
        (23, 6, 22),
        (24, 7, 24),
        (63, 7, 24),
    ] {
        let value = 1 << (63 - zeros) | 1;
        let mut w = header(2, 0);
        w.write_bit(false);
        w.write_bits(0b11, 2);
        w.write_bits(index, 3);
        w.write_bits(value, 64 - leading);
        let expected = block(TAG_CHIMP, w);
        let points = [Point::new(0, 0), Point::new(0, value)];
        assert_eq!(Chimp.encode(&points).unwrap(), expected);
        assert_eq!(decode(&expected).unwrap(), points);
    }
}

#[test]
fn chimp_rejects_impossible_windows() {
    // Leading zeros left unstated before any were stated.
    let mut w = header(2, 0);
    w.write_bit(false);
    w.write_bits(0b10, 2);
    w.write_bits(0, 64);
    assert_eq!(decode(&block(TAG_CHIMP, w)), Err(Error::MalformedBlock));

    // And right after a window.
    let mut w = header(3, 0);
    w.write_bit(false);
    w.write_bits(0b01, 2);
    w.write_bits(7, 3);
    w.write_bits(1, 6);
    w.write_bits(1, 1);
    w.write_bit(false);
    w.write_bits(0b10, 2);
    w.write_bits(0, 64);
    assert_eq!(decode(&block(TAG_CHIMP, w)), Err(Error::MalformedBlock));

    // 24 leading zeros and 41 bits; no bits at all.
    for width in [41, 0] {
        let mut w = header(2, 0);
        w.write_bit(false);
        w.write_bits(0b01, 2);
        w.write_bits(7, 3);
        w.write_bits(width, 6);
        w.write_bits(1, 64);
        assert_eq!(decode(&block(TAG_CHIMP, w)), Err(Error::MalformedBlock));
    }
}

#[test]
fn chimp128_keeps_every_bit_pattern() {
    let points = odd_patterns();
    for count in [0, 1, 2, points.len()] {
        let block = Chimp128.encode(&points[..count]).unwrap();
        assert_eq!(block[0], TAG_CHIMP128);
        assert_eq!(decode(&block).unwrap(), &points[..count]);
    }
    assert_eq!(Chimp128.name(), "chimp128");
}

/// Each of the four branches, bit for bit.
#[test]
fn an_exact_chimp128_block() {
    let points = [
        Point::new(0, 5),
        Point::new(0, 6),
        Point::new(0, 7),
        Point::new(0, 5),
        Point::new(0, 8),
        Point::new(0, 6 | 1 << 51),
        Point::new(0, 9),
    ];
    let mut w = header(7, 5);
    // 6 shares its low bits with nothing.
    w.write_bit(false);
    w.write_bits(0b11, 2);
    w.write_bits(7, 3);
    w.write_bits(5 ^ 6, 40);
    // Nor does 7, and its XOR has as many leading zeros.
    w.write_bit(false);
    w.write_bits(0b10, 2);
    w.write_bits(6 ^ 7, 40);
    // The first value again.
    w.write_bit(false);
    w.write_bits(0b00, 2);
    w.write_bits(0, 7);
    // After that the leading zeros have to be stated.
    w.write_bit(false);
    w.write_bits(0b11, 2);
    w.write_bits(7, 3);
    w.write_bits(5 ^ 8, 40);
    // The second value but for one bit.
    w.write_bit(false);
    w.write_bits(0b01, 2);
    w.write_bits(1, 7);
    w.write_bits(2, 3);
    w.write_bits(1, 6);
    w.write_bits(1, 1);
    // And here too.
    w.write_bit(false);
    w.write_bits(0b11, 2);
    w.write_bits(2, 3);
    w.write_bits(6 ^ 9 | 1 << 51, 52);
    let expected = block(TAG_CHIMP128, w);
    assert_eq!(Chimp128.encode(&points).unwrap(), expected);
    assert_eq!(decode(&expected).unwrap(), points);
}

/// A value 128 back is still in reach, and takes the place of an older one of that name; one
/// further back is not.
#[test]
fn chimp128_reaches_128_values_back() {
    let mut points: Vec<Point> = (0..140).map(|i| Point::new(0, i * 3 + 1)).collect();
    points.push(Point::new(0, 12 * 3 + 1));
    let named = Chimp128.encode(&points).unwrap();
    assert_eq!(decode(&named).unwrap(), points);
    points[140] = Point::new(0, 11 * 3 + 1);
    let unnamed = Chimp128.encode(&points).unwrap();
    assert_eq!(decode(&unnamed).unwrap(), points);
    // A name is nine bits, a value down to its last bit at least forty.
    assert!(named.len() + 3 < unnamed.len());
    // Of two values with the same low bits the later is referred to: it is at place 139.
    points[139] = Point::new(0, 100 * 3 + 1);
    points[140] = Point::new(0, 100 * 3 + 1);
    let block = Chimp128.encode(&points).unwrap();
    assert_eq!(decode(&block).unwrap(), points);
}

#[test]
fn chimp128_rejects_a_name_that_stands_for_nothing() {
    for (slot, found) in [(0, true), (1, true), (2, false), (127, false)] {
        let mut w = header(3, 9);
        w.write_bit(false);
        w.write_bits(0b11, 2);
        w.write_bits(0, 3);
        w.write_bits(4, 64);
        w.write_bit(false);
        w.write_bits(0b00, 2);
        w.write_bits(slot, 7);
        let decoded = decode(&block(TAG_CHIMP128, w));
        if found {
            assert_eq!(decoded.unwrap()[2].value, [9, 9 ^ 4][slot as usize]);
        } else {
            assert_eq!(decoded, Err(Error::MalformedBlock));
        }
    }
}

#[test]
fn elf_keeps_every_bit_pattern() {
    let points = odd_patterns();
    for count in [2, points.len()] {
        let block = Elf.encode(&points[..count]).unwrap();
        assert_eq!(decode(&block).unwrap(), &points[..count]);
    }
    let points = tenths(500);
    for count in [0, 1, 2, points.len()] {
        let block = Elf.encode(&points[..count]).unwrap();
        assert_eq!(block[0], TAG_ELF);
        assert_eq!(decode(&block).unwrap(), &points[..count]);
    }
    assert_eq!(Elf.name(), "elf");
}

/// One reading that does not scale makes the whole block a Chimp block.
#[test]
fn elf_falls_back_on_chimp() {
    for odd in [f64::NAN, f64::INFINITY, -0.0, 1e300] {
        let mut points = tenths(40);
        points[7] = at(points[7].timestamp, odd);
        assert_eq!(Elf.encode(&points), Chimp.encode(&points));
        assert_eq!(decode(&Elf.encode(&points).unwrap()).unwrap(), points);
    }
}

#[test]
fn an_exact_elf_block() {
    assert_eq!(Elf.encode(&[]), Ok(vec![0x04, 0, 0]));
    // 0.1 needs none of its fraction: 0.0625 comes back as 0.1 at one decimal place.
    let mut w = BitWriter::new();
    w.write_varint(1);
    w.write_bits(1, 8);
    w.write_varint(0);
    w.write_bits(0.0625f64.to_bits(), 64);
    assert_eq!(Elf.encode(&[at(0, 0.1)]), Ok(block(TAG_ELF, w)));
}

#[test]
fn elf_rejects_what_it_cannot_round() {
    // More decimal places than there are.
    let mut w = BitWriter::new();
    w.write_varint(0);
    w.write_bits(18, 8);
    assert_eq!(decode(&block(TAG_ELF, w)), Err(Error::MalformedBlock));
    // Not a number.
    let mut w = BitWriter::new();
    w.write_varint(1);
    w.write_bits(0, 8);
    w.write_varint(0);
    w.write_bits(f64::NAN.to_bits(), 64);
    assert_eq!(decode(&block(TAG_ELF, w)), Err(Error::MalformedBlock));
}

#[test]
fn rounding_and_erasing_exact_values() {
    assert_eq!(rounded(0.0625f64.to_bits(), 1), Some(0.1f64.to_bits()));
    assert_eq!(rounded(8.5625f64.to_bits(), 2), Some(8.56f64.to_bits()));
    assert_eq!(rounded((-2.5f64).to_bits(), 0), Some((-3.0f64).to_bits()));
    assert_eq!(rounded(1e-30f64.to_bits(), 17), Some(0));
    assert_eq!(rounded(f64::INFINITY.to_bits(), 0), None);
    assert_eq!(rounded(1e16f64.to_bits(), 0), None);
    assert_eq!(erase(0.1f64.to_bits(), 1), 0.0625f64.to_bits());
    assert_eq!(erase(0, 3), 0);
    // Every bit of this one is needed.
    let whole = 9_007_199_254_740_991.0f64;
    assert_eq!(erase(whole.to_bits(), 0), whole.to_bits());
}

/// The search for the widest erasure, done with floating-point numbers.
#[test]
fn erasing_agrees_with_floating_point() {
    for places in 0..=4u8 {
        let factor = 10f64.powi(places as i32);
        for i in -300..300 {
            let value = (i * 37) as f64 / factor;
            let bits = value.to_bits();
            let mut expected = bits;
            for width in (1..=52).rev() {
                let short = bits >> width << width;
                let back = (f64::from_bits(short) * factor).round() / factor;
                if back.to_bits() == bits {
                    expected = short;
                    break;
                }
            }
            if value != 0.0 {
                assert_eq!(erase(bits, places), expected, "{value} at {places}");
            }
        }
    }
}

/// Erasing is what makes Elf worth while.
#[test]
fn elf_beats_chimp_on_short_decimals() {
    let points: Vec<Point> = (0..500)
        .map(|i| at(1_700_000_000 + i * 60, 20.0 + ((i * 7919) % 97) as f64 / 100.0))
        .collect();
    let elf = Elf.encode(&points).unwrap();
    let chimp = Chimp.encode(&points).unwrap();
    assert_eq!(decode(&elf).unwrap(), points);
    assert!(elf.len() < chimp.len());
}

/// No shorter run of the bytes of a block decodes.
#[test]
fn every_truncated_block_is_an_error() {
    let mut points = tenths(60);
    let plain = points.clone();
    points[9].value = f64::NAN.to_bits();
    for points in [&points[..], &plain[..], &plain[..1], &[]] {
        for block in [
            Gorilla.encode(points).unwrap(),
            Decimal.encode(points).unwrap(),
            Chimp.encode(points).unwrap(),
            Chimp128.encode(points).unwrap(),
            Elf.encode(points).unwrap(),
            Alp.encode(points).unwrap(),
            Packed.encode(points).unwrap(),
        ] {
            assert_eq!(decode(&block).unwrap(), points);
            for length in 0..block.len() {
                assert_eq!(decode(&block[..length]), Err(Error::MalformedBlock));
            }
        }
    }
}

/// Without differences to pack, ALP and packed write the same stream.
#[test]
fn blocks_of_at_most_one_point_differ_in_the_tag_alone() {
    for points in [
        vec![],
        vec![at(-5, 21.5)],
        vec![at(7, -1000.0)],
        vec![at(0, 0.0)],
        vec![at(0, 64.0)],
    ] {
        let alp = Alp.encode(&points).unwrap();
        let packed = Packed.encode(&points).unwrap();
        assert_eq!(&alp[1..], &packed[1..]);
    }
}

/// No flipped bit makes decoding panic.
#[test]
fn flipped_bits_in_xor_blocks_do_not_panic() {
    let points = tenths(40);
    for block in [
        Chimp.encode(&points).unwrap(),
        Chimp128.encode(&points).unwrap(),
        Elf.encode(&points).unwrap(),
    ] {
        for position in 0..block.len() * 8 {
            let mut corrupt = block.clone();
            corrupt[position / 8] ^= 1 << (position % 8);
            let _ = decode(&corrupt);
        }
    }
}

/// The point count says where a block ends here too.
#[test]
fn bytes_after_an_xor_block_change_nothing() {
    let points = tenths(50);
    for mut block in [
        Chimp.encode(&points).unwrap(),
        Chimp128.encode(&points).unwrap(),
        Elf.encode(&points).unwrap(),
    ] {
        block.extend_from_slice(&[0xff, 0x00, 0xa5]);
        assert_eq!(decode(&block).unwrap(), points);
    }
}
