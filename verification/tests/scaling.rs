use tscodec::binary64::power_of_ten;
use tscodec::codec::decimal::{scaled, unscaled, MAX_SCALE};
use tscodec::codec::{decode, Codec, Decimal, Gorilla, TAG_DECIMAL, TAG_GORILLA};
use tscodec::{Error, Point};

fn at(timestamp: i64, value: f64) -> Point {
    Point::new(timestamp, value.to_bits())
}

fn factor(exponent: u8) -> f64 {
    let mut power: u64 = 1;
    for _ in 0..exponent {
        power *= 10;
    }
    power as f64
}

/// The same in hardware arithmetic.
fn scaled_by_hardware(value: f64, exponent: u8) -> Option<i64> {
    let product = value * factor(exponent);
    if !product.is_finite() || product.abs() > 9007199254740992.0 {
        return None;
    }
    let integer = product.round() as i64;
    if (integer as f64 / factor(exponent)).to_bits() == value.to_bits() {
        Some(integer)
    } else {
        None
    }
}

/// A cheap deterministic generator.
fn next(state: &mut u64) -> u64 {
    *state ^= *state << 13;
    *state ^= *state >> 7;
    *state ^= *state << 17;
    *state
}

#[test]
fn division_agrees_with_the_hardware() {
    let mut state = 88172645463325252u64;
    let mut samples = vec![0, 1, -1, i64::MAX, i64::MIN, i64::MIN + 1, 1 << 53, (1 << 53) + 1];
    for _ in 0..3000 {
        let n = next(&mut state) as i64;
        let shift = next(&mut state) % 64;
        samples.push(n >> shift);
    }
    for n in samples {
        for exponent in 0..=MAX_SCALE {
            assert_eq!(
                unscaled(n, exponent),
                (n as f64 / factor(exponent)).to_bits(),
                "{n} / 10^{exponent}"
            );
        }
    }
}

#[test]
fn scaling_agrees_with_the_hardware() {
    let mut state = 123456789u64;
    let mut samples = vec![
        0.0,
        -0.0,
        1.0,
        -1.0,
        0.1,
        8.55,
        -8.55,
        0.5,
        0.05,
        1e-17,
        5e-18,
        4.9e-18,
        1e-300,
        f64::MIN_POSITIVE,
        f64::from_bits(1),
        f64::MAX,
        f64::MIN,
        f64::INFINITY,
        f64::NAN,
        9007199254740992.0,
        9007199254740993.0,
        9007199254740994.0,
        -9007199254740992.0,
        4503599627370496.5,
        2251799813685248.25,
    ];
    for _ in 0..3000 {
        let bits = next(&mut state);
        samples.push(f64::from_bits(bits));
        let near = f64::from_bits((bits & 0x800f_ffff_ffff_ffff) | ((960 + bits % 120) << 52));
        samples.push(near);
        let n = (next(&mut state) as i64) >> (next(&mut state) % 64);
        let exponent = (next(&mut state) % 18) as u8;
        let decimal = n as f64 / factor(exponent);
        samples.push(decimal);
        samples.push(f64::from_bits(decimal.to_bits() ^ 1));
    }
    for value in samples {
        for exponent in 0..=MAX_SCALE {
            assert_eq!(
                scaled(value.to_bits(), exponent),
                scaled_by_hardware(value, exponent),
                "{value:e} * 10^{exponent}"
            );
        }
    }
}

/// 8.55 * 100 is 855.0000000000001, and still 8.55 is 855 hundredths.
#[test]
fn a_product_that_is_not_an_integer_still_scales() {
    assert_eq!(scaled(8.55f64.to_bits(), 2), Some(855));
    assert_eq!(scaled(8.55f64.to_bits(), 1), None);
    assert_eq!(unscaled(855, 2), 8.55f64.to_bits());
}

#[test]
fn what_does_not_come_back_does_not_scale() {
    assert_eq!(scaled((-0.0f64).to_bits(), 0), None);
    assert_eq!(scaled(0.0f64.to_bits(), 5), Some(0));
    assert_eq!(scaled(f64::NAN.to_bits(), 0), None);
    assert_eq!(scaled(f64::NEG_INFINITY.to_bits(), 0), None);
    assert_eq!(scaled(9007199254740992.0f64.to_bits(), 0), Some(1 << 53));
    assert_eq!(scaled(9007199254740994.0f64.to_bits(), 0), None);
}

#[test]
fn decimal_takes_the_smallest_scale_that_fits_every_value() {
    let points = [at(0, 1.0), at(60, 8.55), at(120, -3.5)];
    let block = Decimal.encode(&points).unwrap();
    assert_eq!(block[0], TAG_DECIMAL);
    assert_eq!(block[1], 3);
    assert_eq!(block[2], 2);
    assert_eq!(decode(&block).unwrap(), points);
    assert_eq!(Decimal.name(), "decimal");
}

#[test]
fn an_empty_decimal_block_has_scale_zero() {
    let block = Decimal.encode(&[]).unwrap();
    assert_eq!(block, vec![TAG_DECIMAL, 0, 0]);
    assert_eq!(decode(&block), Ok(vec![]));
}

#[test]
fn one_value_that_does_not_scale_sends_the_block_to_gorilla() {
    let points = [at(0, 1.5), at(60, std::f64::consts::PI), at(120, -350.5)];
    let block = Decimal.encode(&points).unwrap();
    assert_eq!(block[0], TAG_GORILLA);
    assert_eq!(block, Gorilla.encode(&points).unwrap());
}

#[test]
fn a_decimal_scale_past_seventeen_is_an_error() {
    assert_eq!(decode(&[TAG_DECIMAL, 0, 18]), Err(Error::MalformedBlock));
    assert_eq!(decode(&[TAG_DECIMAL, 0, 17]), Ok(vec![]));
}

/// Every factor is itself a binary64 number, so nothing is lost by scaling with it.
#[test]
fn the_powers_of_ten_are_exact() {
    assert_eq!(power_of_ten(0), 1);
    assert_eq!(power_of_ten(17), 100_000_000_000_000_000);
    for exponent in 0..=MAX_SCALE {
        let power = power_of_ten(exponent);
        assert_eq!(power as f64 as u64, power);
        assert_eq!(unscaled(power as i64, exponent), 1.0f64.to_bits());
    }
}
