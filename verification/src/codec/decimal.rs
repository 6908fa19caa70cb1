//! Decimal scaling: readings that are short decimals become integers.
//!
//! A sensor that reports tenths of a degree produces patterns that look random but are all
//! multiples of a tenth. Multiplied by the right power of ten they are small integers, and
//! consecutive ones are close.

use crate::binary64;
use crate::binary64::{LEAD, SIGN};
use crate::bits::{BitReader, BitWriter};
use crate::bitseq;
use crate::codec;
use crate::codec::dod;
use crate::codec::dod::Dod;
use crate::codec::gorilla;
use crate::codec::gorilla::Gorilla;
use crate::codec::{Codec, TAG_DECIMAL, TAG_GORILLA};
use crate::error::Error;
use crate::point::Point;
use vstd::arithmetic::div_mod::*;
use vstd::arithmetic::mul::*;
use vstd::arithmetic::power::*;
use vstd::arithmetic::power2::*;
use vstd::bits::*;
use vstd::prelude::*;

verus! {

/// The largest decimal exponent that is tried. Beyond it a product leaves the range in which
/// binary64 still holds every integer before it is of any use.
pub const MAX_SCALE: u8 = 17;

/// `n / 10^e` as binary64 arithmetic has it: the integer is converted, then divided, and each
/// step rounds to nearest. The quotient of zero is positive zero.
pub open spec fn unscaled_of(n: i64, e: nat) -> u64 {
    let magnitude = if n < 0 { -n } else { n as int };
    let whole = binary64::nearest(magnitude as nat * pow2(1074), 1);
    let quotient = binary64::nearest(binary64::units(whole), binary64::ten_to(e));
    if n < 0 {
        (SIGN + quotient) as u64
    } else {
        quotient
    }
}

/// A magnitude in units of `2^-1074`, to the nearest whole number, halves away from zero.
pub open spec fn nearest_whole(units: nat) -> nat {
    (2 * units + pow2(1074)) / pow2(1075)
}

/// A reading times `10^e`, in binary64 arithmetic, to the nearest integer. There is none when
/// the product exceeds `2^53`, above which not every integer is a binary64 number.
pub open spec fn whole_of(value: u64, e: nat) -> Option<i64> {
    let product = binary64::nearest(binary64::units(value) * binary64::ten_to(e), 1);
    if !binary64::is_finite(value) || !binary64::is_finite(product) || binary64::units(product)
        > pow2(53) * pow2(1074) {
        None
    } else {
        let whole = nearest_whole(binary64::units(product));
        Some((if value >= SIGN { -(whole as int) } else { whole as int }) as i64)
    }
}

/// The integer that stands for a reading at decimal exponent `e`: the reading times `10^e`, in
/// binary64 arithmetic, to the nearest integer. There is none when dividing the integer back
/// does not give the reading's exact bit pattern.
pub open spec fn scaled_of(value: u64, e: nat) -> Option<i64> {
    match whole_of(value, e) {
        None => None,
        Some(integer) => if unscaled_of(integer, e) == value {
            Some(integer)
        } else {
            None
        },
    }
}

/// The reading that `n` stands for at decimal exponent `exponent`: `n / 10^exponent`.
pub fn unscaled(n: i64, exponent: u8) -> (value: u64)
    requires
        exponent <= MAX_SCALE,
    ensures
        value == unscaled_of(n, exponent as nat),
{
    if n == 0 {
        proof {
            lemma_unscaled_zero(exponent as nat);
        }
        return 0;
    }
    let magnitude: u64 = if n < 0 { (-(n + 1)) as u64 + 1 } else { n as u64 };
    proof {
        binary64::lemma_ten_to(exponent as nat);
    }
    let whole: u64 = binary64::round_whole(magnitude);
    let quotient: u64 = binary64::divide(whole, binary64::power_of_ten(exponent));
    if n < 0 {
        SIGN + quotient
    } else {
        quotient
    }
}

/// Zero stands for positive zero at every exponent.
pub proof fn lemma_unscaled_zero(e: nat)
    ensures
        unscaled_of(0, e) == 0,
{
    binary64::lemma_ten_to(e);
    lemma_pow2_pos(53);
    lemma2_to64();
    assert(0nat * pow2(1074) == 0);
    lemma_zero_ratio(1);
    lemma_zero_ratio(binary64::ten_to(e));
}

/// The number nearest to zero is zero.
proof fn lemma_zero_ratio(den: nat)
    requires
        den > 0,
    ensures
        binary64::nearest(0, den) == 0,
        binary64::units(0) == 0,
{
    lemma_pow2_pos(53);
    lemma2_to64();
    lemma_div_of0(den as int);
    lemma_small_mod(0, den);
    assert(den * pow2(0) == den);
}

/// The integer that stands for a reading at decimal exponent `exponent`, if there is one.
pub fn scaled(value: u64, exponent: u8) -> (integer: Option<i64>)
    requires
        exponent <= MAX_SCALE,
    ensures
        integer == scaled_of(value, exponent as nat),
{
    match whole(value, exponent) {
        None => None,
        Some(integer) => if unscaled(integer, exponent) == value {
            Some(integer)
        } else {
            None
        },
    }
}

/// The integer nearest to a reading times `10^exponent`, if that is in range.
pub fn whole(value: u64, exponent: u8) -> (integer: Option<i64>)
    requires
        exponent <= MAX_SCALE,
    ensures
        integer == whole_of(value, exponent as nat),
{
    let biased: u64 = (value / LEAD) % 2048;
    let fraction: u64 = value % LEAD;
    // The exponent field of 1 is 1023, so the significand as a whole number weighs
    // 2^(biased - 1075). From 2^54 up there is no integer, nor for what is not a number.
    if biased > 1076 {
        proof {
            lemma_large(value, exponent as nat);
        }
        return None;
    }
    // Below 2^-59 not even 10^17 times the reading comes near one half.
    if biased < 964 {
        proof {
            lemma_small(value, exponent as nat);
        }
        return Some(0);
    }
    let factor: u64 = binary64::power_of_ten(exponent);
    proof {
        binary64::lemma_ten_to(exponent as nat);
        assert(0x10_0000_0000_0000 <= (LEAD + fraction) * factor < 0x20_0000_0000_0000
            * 0x200_0000_0000_0000) by (nonlinear_arith)
            requires
                LEAD == 0x10_0000_0000_0000,
                fraction < LEAD,
                0 < factor <= 100_000_000_000_000_000,
        ;
    }
    // The product has up to 110 bits; rounding it leaves 53 at a place of their own.
    let product: u128 = (LEAD + fraction) as u128 * factor as u128;
    let mut ulp: u128 = 1;
    let mut place: u64 = biased;
    let ghost mut t: nat = 0;
    proof {
        lemma2_to64();
    }
    while product >= ulp * 0x20_0000_0000_0000
        invariant
            0x10_0000_0000_0000 <= product < 0x20_0000_0000_0000 * 0x200_0000_0000_0000,
            biased <= 1076,
            ulp == pow2(t),
            place == biased + t,
            t <= 57,
            1 <= ulp <= 0x200_0000_0000_0000,
            product >= ulp * 0x10_0000_0000_0000,
        decreases 0x400_0000_0000_0000 - ulp,
    {
        proof {
            lemma_pow2_unfold(t + 1);
            lemma2_to64();
            lemma2_to64_rest();
            assert(t <= 56);
            t = t + 1;
        }
        ulp = ulp * 2;
        place = place + 1;
    }
    let significand: u64 = binary64::round_half_even(product, ulp) as u64;
    proof {
        assert(LEAD * pow2(t) <= product < (2 * LEAD) * pow2(t)) by {
            assert(LEAD * pow2(t) == 0x10_0000_0000_0000 * ulp);
            assert((2 * LEAD) * pow2(t) == 0x20_0000_0000_0000 * ulp);
        }
        lemma_product(value, exponent as nat, product as nat, t);
        lemma_whole(significand as nat, place as nat);
        lemma2_to64();
        lemma2_to64_rest();
    }
    // It is significand * 2^(place - 1075), and at most 2^53.
    if place > 1076 || (place == 1076 && significand > LEAD) {
        return None;
    }
    let whole: u64 = if place == 1076 {
        2 * significand
    } else if place == 1075 {
        significand
    } else if place < 1021 {
        0
    } else {
        let low: u64 = 1075 - place;
        proof {
            lemma_u64_pow2_no_overflow((low - 1) as nat);
            lemma_u64_pow2_no_overflow(low as nat);
            lemma_u64_shl_is_mul(1, (low - 1) as u64);
            lemma_u64_shl_is_mul(1, low);
            if low < 54 {
                lemma_pow2_strictly_increases(low as nat, 54);
            }
            lemma_pow2_unfold(low as nat);
            lemma_pow2_pos((low - 1) as nat);
            lemma_half_sum(significand as int, pow2((low - 1) as nat) as int);
        }
        (significand + (1u64 << (low - 1))) / (1u64 << low)
    };
    Some(if value >= SIGN { -(whole as i64) } else { whole as i64 })
}

/// Readings from `2^54` up, and those that are not numbers, are out of range.
proof fn lemma_large(value: u64, e: nat)
    requires
        binary64::biased(value) > 1076,
    ensures
        whole_of(value, e) is None,
{
    if binary64::is_finite(value) {
        let up = pow2((binary64::biased(value) - 1) as nat);
        let sig = (LEAD + value % LEAD) as nat;
        let ten = binary64::ten_to(e);
        let num = binary64::units(value) * ten;
        binary64::lemma_ten_to(e);
        lemma_pow2_pos(1074);
        lemma2_to64();
        lemma2_to64_rest();
        lemma_pow2_adds(2, 1074);
        lemma_pow2_adds(52, 1076);
        if binary64::biased(value) > 1077 {
            lemma_pow2_strictly_increases(1076, (binary64::biased(value) - 1) as nat);
        }
        lemma_mul_upper_bound(LEAD as int, sig as int, pow2(1076) as int, up as int);
        lemma_mul_inequality(1, ten as int, binary64::units(value) as int);
        lemma_mul_is_commutative(ten as int, binary64::units(value) as int);
        assert(num >= pow2(1128));
        lemma_mul_inequality(1, pow2(1076) as int, LEAD as int);
        lemma_mul_is_commutative(pow2(1076) as int, LEAD as int);
        binary64::lemma_nearest_units(num);
        let length = bitseq::bit_length(num);
        let place = (length - 53) as nat;
        binary64::lemma_bit_length_bounds(num);
        assert(length >= 1129) by {
            if length < 1128 {
                lemma_pow2_strictly_increases(length, 1128);
            }
        }
        if place > 1076 {
            lemma_pow2_strictly_increases(1076, place);
        }
        lemma_mul_upper_bound(
            LEAD as int,
            binary64::half_even(num, pow2(place)) as int,
            pow2(1076) as int,
            pow2(place) as int,
        );
        assert(LEAD * (4 * pow2(1074)) > pow2(53) * pow2(1074)) by {
            lemma_mul_is_associative(LEAD as int, 4, pow2(1074) as int);
            lemma_mul_strict_inequality(2 * LEAD as int, 4 * LEAD as int, pow2(1074) as int);
        }
    }
}

/// Readings below `2^-59` come to zero.
proof fn lemma_small(value: u64, e: nat)
    requires
        binary64::biased(value) < 964,
        e <= MAX_SCALE,
    ensures
        whole_of(value, e) == Some(0i64),
{
    let b = binary64::biased(value);
    let units = binary64::units(value);
    let ten = binary64::ten_to(e);
    let num = units * ten;
    binary64::lemma_ten_to(e);
    lemma2_to64();
    lemma2_to64_rest();
    lemma_pow2_adds(53, 962);
    lemma_pow2_pos(962);
    assert(units < pow2(1015)) by {
        if b == 0 {
            lemma_pow2_strictly_increases(52, 1015);
        } else {
            let sig = (LEAD + value % LEAD) as nat;
            let up = pow2((b - 1) as nat);
            if b < 963 {
                lemma_pow2_strictly_increases((b - 1) as nat, 962);
            }
            lemma_mul_inequality(up as int, pow2(962) as int, sig as int);
            lemma_mul_is_commutative(up as int, sig as int);
            lemma_mul_is_commutative(pow2(962) as int, sig as int);
            lemma_mul_strict_inequality(sig as int, 2 * LEAD as int, pow2(962) as int);
        }
    }
    assert(num < pow2(1072)) by {
        lemma_pow2_adds(1015, 57);
        lemma_mul_inequality(units as int, pow2(1015) as int, ten as int);
        lemma_mul_strict_inequality(ten as int, pow2(57) as int, pow2(1015) as int);
        lemma_mul_is_commutative(pow2(57) as int, pow2(1015) as int);
        lemma_mul_is_commutative(ten as int, pow2(1015) as int);
    }
    binary64::lemma_nearest_below(num, 1072);
    let product = binary64::nearest(num, 1);
    lemma_pow2_unfold(1073);
    lemma_pow2_unfold(1074);
    lemma_pow2_unfold(1075);
    lemma_pow2_pos(1072);
    lemma_mul_inequality(1, pow2(53) as int, pow2(1074) as int);
    assert(nearest_whole(binary64::units(product)) == 0) by {
        lemma_basic_div(
            (2 * binary64::units(product) + pow2(1074)) as int,
            pow2(1075) as int,
        );
    }
}

/// How a rounded product compares with `2^53`, and which whole number is nearest to it, by the
/// place of its significand.
proof fn lemma_whole(significand: nat, place: nat)
    requires
        LEAD <= significand <= 2 * LEAD,
        964 <= place,
    ensures
        ({
            let units = significand * pow2((place - 1) as nat);
            let limit = pow2(53) * pow2(1074);
            &&& place > 1076 ==> units > limit
            &&& place == 1076 ==> (units > limit <==> significand > LEAD)
            &&& place == 1076 ==> nearest_whole(units) == 2 * significand
            &&& place == 1075 ==> nearest_whole(units) == significand
            &&& place < 1075 ==> nearest_whole(units) == (significand + pow2(
                (1074 - place) as nat,
            )) / pow2((1075 - place) as nat)
            &&& place < 1021 ==> nearest_whole(units) == 0
            &&& place < 1076 ==> units <= limit
        }),
{
    let one = pow2(1074) as int;
    let s = significand as int;
    let up = pow2((place - 1) as nat) as int;
    lemma_pow2_pos(1074);
    lemma2_to64();
    lemma2_to64_rest();
    lemma_pow2_unfold(1075);
    if place >= 1076 {
        lemma_pow2_unfold(1076);
        if place > 1077 {
            lemma_pow2_strictly_increases(1076, (place - 1) as nat);
        }
        if place > 1076 {
            lemma_mul_upper_bound(LEAD as int, s, 4 * one, up);
            assert(LEAD * (4 * one) > pow2(53) * one) by {
                lemma_mul_is_associative(LEAD as int, 4, one);
                lemma_mul_strict_inequality(2 * LEAD as int, 4 * LEAD as int, one);
            }
        } else {
            assert(s * (2 * one) == (2 * s) * one) by {
                lemma_mul_is_associative(s, 2, one);
            }
            if s > LEAD {
                lemma_mul_strict_inequality(2 * LEAD as int, 2 * s, one);
            }
            assert(2 * ((2 * s) * one) == (2 * s) * (2 * one)) by {
                lemma_mul_is_associative(2 * s, 2, one);
                lemma_mul_is_associative(2, 2 * s, one);
                lemma_mul_is_commutative(2, 2 * s);
            }
            lemma_fundamental_div_mod_converse(
                2 * (s * up) + one,
                2 * one,
                2 * s,
                one,
            );
        }
    } else if place == 1075 {
        lemma_mul_inequality(s, 2 * LEAD as int, one);
        assert(2 * (s * one) == s * (2 * one)) by {
            lemma_mul_is_associative(s, 2, one);
            lemma_mul_is_associative(2, s, one);
            lemma_mul_is_commutative(2, s);
        }
        lemma_fundamental_div_mod_converse(2 * (s * up) + one, 2 * one, s, one);
    } else {
        let h = (1075 - place) as nat;
        let c = pow2(place);
        lemma_pow2_pos(place);
        lemma_pow2_pos(h);
        lemma_pow2_unfold(place);
        lemma_pow2_unfold(h);
        lemma_pow2_adds(h, place);
        lemma_pow2_adds((h - 1) as nat, place);
        lemma_pow2_strictly_increases((place - 1) as nat, 1074);
        lemma_mul_upper_bound(s, 2 * LEAD as int, up, one);
        assert(2 * (s * up) == s * c) by {
            lemma_mul_is_associative(s, 2, up);
            lemma_mul_is_associative(2, s, up);
            lemma_mul_is_commutative(2, s);
        }
        let top = significand + pow2((h - 1) as nat);
        assert(2 * (s * up) + one == top * c) by {
            lemma_mul_is_distributive_add_other_way(
                c as int,
                s,
                pow2((h - 1) as nat) as int,
            );
        }
        binary64::lemma_half_even_cancel(top, pow2(h), c);
        if place < 1021 {
            if h > 55 {
                lemma_pow2_strictly_increases(54, (h - 1) as nat);
            }
            lemma_basic_div(top as int, pow2(h) as int);
        }
    }
}

/// Rounding a number scaled down by at least two makes it no larger by more than one.
proof fn lemma_half_sum(s: int, half: int)
    requires
        0 < half,
        0 <= s,
    ensures
        0 <= (s + half) / (2 * half) <= s + 1,
{
    lemma_div_is_ordered_by_denominator(s + half, 1, 2 * half);
    lemma_div_pos_is_pos(s + half, 2 * half);
    let q = (s + half) / (2 * half);
    lemma_fundamental_div_mod(s + half, 2 * half);
    if q > s + 1 {
        assert((2 * half) * q > s + half) by (nonlinear_arith)
            requires
                q > s + 1,
                half > 0,
                s >= 0,
        ;
    }
}

/// What the product of a reading and a power of ten rounds to.
proof fn lemma_product(value: u64, e: nat, product: nat, t: nat)
    requires
        964 <= binary64::biased(value) <= 1076,
        t <= 57,
        product == (LEAD + value % LEAD) as nat * binary64::ten_to(e),
        LEAD * pow2(t) <= product < (2 * LEAD) * pow2(t),
    ensures
        ({
            let rounded = binary64::nearest(binary64::units(value) * binary64::ten_to(e), 1);
            let significand = binary64::half_even(product, pow2(t));
            &&& binary64::is_finite(rounded)
            &&& binary64::units(rounded) == significand * pow2(
                (t + binary64::biased(value) - 1) as nat,
            )
            &&& LEAD <= significand <= 2 * LEAD
        }),
{
    let b = binary64::biased(value);
    let up = pow2((b - 1) as nat);
    let ten = binary64::ten_to(e);
    let num = binary64::units(value) * ten;
    let sig = (LEAD + value % LEAD) as nat;
    lemma_pow2_pos((b - 1) as nat);
    lemma_pow2_pos(t);
    lemma_pow2_adds(t, (b - 1) as nat);
    assert(num == product * up) by {
        lemma_mul_is_associative(sig as int, up as int, ten as int);
        lemma_mul_is_associative(sig as int, ten as int, up as int);
        lemma_mul_is_commutative(up as int, ten as int);
    }
    assert(LEAD * (pow2(t) * up) <= num < (2 * LEAD) * (pow2(t) * up)) by {
        lemma_mul_is_associative(LEAD as int, pow2(t) as int, up as int);
        lemma_mul_is_associative(2 * LEAD as int, pow2(t) as int, up as int);
        lemma_mul_inequality(LEAD * pow2(t), product as int, up as int);
        lemma_mul_strict_inequality(product as int, 2 * LEAD * pow2(t), up as int);
    }
    binary64::lemma_nearest(num, 1, (t + b - 1) as nat);
    binary64::lemma_half_even_cancel(product, pow2(t), up);
}

/// Up to `2^53`, the nearest whole number is no larger than that.
pub proof fn lemma_whole_bound(units: nat)
    requires
        units <= pow2(53) * pow2(1074),
    ensures
        nearest_whole(units) <= 0x20_0000_0000_0000,
{
    lemma2_to64_rest();
    lemma_pow2_pos(1074);
    lemma_pow2_unfold(1075);
    let one = pow2(1074) as int;
    let limit = 0x20_0000_0000_0000int;
    assert(2 * (limit * one) == limit * (2 * one)) by {
        lemma_mul_is_associative(limit, 2, one);
        lemma_mul_is_associative(2, limit, one);
    }
    lemma_fundamental_div_mod_converse(2 * (limit * one) + one, 2 * one, limit, one);
    lemma_div_is_ordered(2 * units + one, 2 * (limit * one) + one, 2 * one);
}

/// An integer that stands for a reading gives it back exactly, and is small enough to be a
/// binary64 number itself.
pub proof fn lemma_scaled(value: u64, e: nat)
    ensures
        scaled_of(value, e) matches Some(n) ==> {
            &&& unscaled_of(n, e) == value
            &&& -0x20_0000_0000_0000 <= n <= 0x20_0000_0000_0000
        },
{
    let product = binary64::nearest(binary64::units(value) * binary64::ten_to(e), 1);
    if binary64::units(product) <= pow2(53) * pow2(1074) {
        lemma_whole_bound(binary64::units(product));
    }
}

/// The integer that stands for a reading is no smaller at a larger exponent.
pub proof fn lemma_grows(value: u64, d: nat, e: nat)
    requires
        d <= e,
        scaled_of(value, d) is Some,
        scaled_of(value, e) is Some,
    ensures
        bitseq::zigzag_of(scaled_of(value, d)->Some_0) <= bitseq::zigzag_of(
            scaled_of(value, e)->Some_0,
        ),
{
    let units = binary64::units(value);
    let low = units * binary64::ten_to(d);
    let high = units * binary64::ten_to(e);
    lemma_pow_positive(10, d);
    lemma_pow_increases(10, d, e);
    lemma_mul_inequality(binary64::ten_to(d) as int, binary64::ten_to(e) as int, units as int);
    lemma_mul_is_commutative(binary64::ten_to(d) as int, units as int);
    lemma_mul_is_commutative(binary64::ten_to(e) as int, units as int);
    binary64::lemma_ordered(low, high);
    let small = binary64::units(binary64::nearest(low, 1));
    let large = binary64::units(binary64::nearest(high, 1));
    lemma_whole_bound(small);
    lemma_whole_bound(large);
    lemma_pow2_pos(1075);
    lemma_div_is_ordered(
        (2 * small + pow2(1074)) as int,
        (2 * large + pow2(1074)) as int,
        pow2(1075) as int,
    );
}

/// How timestamps and integers are written: the first of each whole, then the others side by
/// side.
pub open spec fn scaled_bits(times: Seq<i64>, integers: Seq<i64>) -> Seq<bool> {
    bitseq::varint(bitseq::zigzag_of(times[0]) as nat) + (bitseq::varint(
        bitseq::zigzag_of(integers[0]) as nat,
    ) + dod::pair_bits(
        Dod::start(times[0]),
        Dod::start(integers[0]),
        times.skip(1),
        integers.skip(1),
    ))
}

/// The points that timestamps and integers stand for.
pub open spec fn readings(pairs: Seq<(i64, i64)>, e: nat) -> Seq<Point> {
    Seq::new(
        pairs.len(),
        |i: int| Point { timestamp: pairs[i].0, value: unscaled_of(pairs[i].1, e) },
    )
}

/// Takes `count` timestamps and integers off the front of a stream.
pub open spec fn take_scaled(s: Seq<bool>, count: nat) -> Option<(Seq<(i64, i64)>, Seq<bool>)> {
    match bitseq::take_signed(s) {
        None => None,
        Some((timestamp, rest)) => match bitseq::take_signed(rest) {
            None => None,
            Some((integer, rest)) => match dod::take_pairs(
                Dod::start(timestamp),
                Dod::start(integer),
                (count - 1) as nat,
                rest,
            ) {
                None => None,
                Some((pairs, rest)) => Some((seq![(timestamp, integer)] + pairs, rest)),
            },
        },
    }
}

/// Timestamps and integers are read back from what was written for them.
pub proof fn lemma_take_scaled(times: Seq<i64>, integers: Seq<i64>, rest: Seq<bool>)
    requires
        times.len() == integers.len(),
        times.len() > 0,
    ensures
        take_scaled(scaled_bits(times, integers) + rest, times.len()) == Some(
            (times.zip_with(integers), rest),
        ),
{
    let left = Dod::start(times[0]);
    let right = Dod::start(integers[0]);
    let third = dod::pair_bits(left, right, times.skip(1), integers.skip(1)) + rest;
    let second = bitseq::varint(bitseq::zigzag_of(integers[0]) as nat) + third;
    let first = bitseq::varint(bitseq::zigzag_of(times[0]) as nat) + second;
    assert(scaled_bits(times, integers) + rest =~= first);
    bitseq::lemma_take_signed(times[0], second);
    bitseq::lemma_take_signed(integers[0], third);
    dod::lemma_take_pairs(left, right, times.skip(1), integers.skip(1), rest);
    assert(seq![(times[0], integers[0])] + times.skip(1).zip_with(integers.skip(1))
        =~= times.zip_with(integers));
}

/// Appends the timestamps of `points`, and the integers that stand for their values.
pub(crate) fn write_scaled(w: &mut BitWriter, points: &[Point], integers: &[i64])
    requires
        old(w).wf(),
        points@.len() == integers@.len(),
        points@.len() > 0,
    ensures
        final(w).wf(),
        final(w)@ == old(w)@ + scaled_bits(codec::timestamps(points@), integers@),
{
    let ghost times = codec::timestamps(points@);
    let ghost goal = w@ + scaled_bits(times, integers@);
    w.write_varint(crate::bits::zigzag(points[0].timestamp));
    w.write_varint(crate::bits::zigzag(integers[0]));
    let mut left = Dod::new(points[0].timestamp);
    let mut right = Dod::new(integers[0]);
    let mut i: usize = 1;
    assert(w@ + dod::pair_bits(left, right, times.skip(1), integers@.skip(1)) =~= goal);
    while i < points.len()
        invariant
            w.wf(),
            1 <= i <= points.len(),
            points@.len() == integers@.len(),
            times == codec::timestamps(points@),
            w@ + dod::pair_bits(left, right, times.skip(i as int), integers@.skip(i as int))
                == goal,
        decreases points.len() - i,
    {
        let ghost before = w@;
        let ghost state = (left, right);
        left.write(w, points[i].timestamp);
        right.write(w, integers[i]);
        i = i + 1;
        proof {
            let ts = times.skip(i - 1);
            let ns = integers@.skip(i - 1);
            assert(ts.skip(1) =~= times.skip(i as int));
            assert(ns.skip(1) =~= integers@.skip(i as int));
            assert(w@ + dod::pair_bits(left, right, times.skip(i as int), integers@.skip(i as int))
                =~= before + dod::pair_bits(state.0, state.1, ts, ns));
        }
    }
    assert(times.skip(i as int).len() == 0);
    assert(w@ =~= goal);
}

/// Reads `count` timestamps and the integers beside them, as the points they stand for.
pub(crate) fn read_scaled(r: &mut BitReader, count: u64, exponent: u8) -> (result: Result<
    Vec<Point>,
    Error,
>)
    requires
        old(r).wf(),
        count > 0,
        exponent <= MAX_SCALE,
    ensures
        final(r).wf(),
        match take_scaled(old(r)@, count as nat) {
            None => result == Err::<Vec<Point>, Error>(Error::MalformedBlock),
            Some((pairs, rest)) => {
                &&& result matches Ok(points)
                &&& points@ == readings(pairs, exponent as nat)
                &&& points@.len() == count
                &&& final(r)@ == rest
            },
        },
{
    let ghost goal = take_scaled(r@, count as nat);
    let ghost e = exponent as nat;
    let timestamp: i64 = r.read_signed()?;
    let integer: i64 = r.read_signed()?;
    let mut points: Vec<Point> = Vec::new();
    points.push(Point::new(timestamp, unscaled(integer, exponent)));
    let mut left = Dod::new(timestamp);
    let mut right = Dod::new(integer);
    let mut done: u64 = 1;
    let ghost mut pairs: Seq<(i64, i64)> = seq![(timestamp, integer)];
    assert(points@ =~= readings(pairs, e));
    while done < count
        invariant
            r.wf(),
            exponent <= MAX_SCALE,
            e == exponent,
            1 <= done <= count,
            pairs.len() == done,
            points@ == readings(pairs, e),
            goal == take_scaled(old(r)@, count as nat),
            goal == (match dod::take_pairs(left, right, (count - done) as nat, r@) {
                None => None,
                Some((more, rest)) => Some((pairs + more, rest)),
            }),
        decreases count - done,
    {
        let ghost before = pairs;
        let timestamp: i64 = left.read(r)?;
        let integer: i64 = right.read(r)?;
        points.push(Point::new(timestamp, unscaled(integer, exponent)));
        done = done + 1;
        proof {
            pairs = before.push((timestamp, integer));
            assert(points@ =~= readings(pairs, e));
            if let Some((more, rest)) = dod::take_pairs(left, right, (count - done) as nat, r@) {
                assert(before + (seq![(timestamp, integer)] + more) =~= pairs + more);
            }
        }
    }
    assert(pairs + Seq::<(i64, i64)>::empty() =~= pairs);
    Ok(points)
}

/// The decimal codec: every reading of a block as an integer, at one exponent for all of them.
pub struct Decimal;

/// Whether every reading of a block scales at exponent `e`.
pub open spec fn scales(points: Seq<Point>, e: nat) -> bool {
    forall|i: int| 0 <= i < points.len() ==> #[trigger] scaled_of(points[i].value, e) is Some
}

/// The smallest exponent from `from` on at which every reading of a block scales.
pub open spec fn scale_from(points: Seq<Point>, from: nat) -> Option<nat>
    decreases MAX_SCALE + 1 - from,
{
    if from > MAX_SCALE {
        None
    } else if scales(points, from) {
        Some(from)
    } else {
        scale_from(points, from + 1)
    }
}

/// The exponent found is the smallest that will do, and none is found only where none will.
pub proof fn lemma_scale(points: Seq<Point>, from: nat)
    ensures
        match scale_from(points, from) {
            Some(e) => {
                &&& from <= e <= MAX_SCALE
                &&& scales(points, e)
                &&& forall|d: nat| from <= d < e ==> !#[trigger] scales(points, d)
            },
            None => forall|d: nat| from <= d <= MAX_SCALE ==> !#[trigger] scales(points, d),
        },
    decreases MAX_SCALE + 1 - from,
{
    if from <= MAX_SCALE && !scales(points, from) {
        lemma_scale(points, from + 1);
    }
}

/// The integers that stand for the readings of a block.
pub open spec fn integers_of(points: Seq<Point>, e: nat) -> Seq<i64> {
    Seq::new(points.len(), |i: int| scaled_of(points[i].value, e)->Some_0)
}

/// The stream of a block at exponent `e`.
pub open spec fn stream(points: Seq<Point>, e: nat) -> Seq<bool> {
    let header = bitseq::varint(points.len()) + bitseq::bits_of(e, 8);
    if points.len() == 0 {
        header
    } else {
        header + scaled_bits(codec::timestamps(points), integers_of(points, e))
    }
}

/// Takes the points of a block off the front of a stream.
pub open spec fn taken(s: Seq<bool>) -> Option<(Seq<Point>, Seq<bool>)> {
    match bitseq::take_varint(s) {
        None => None,
        Some((count, rest)) => match bitseq::take_bits(rest, 8) {
            None => None,
            Some((e, rest)) => if e > MAX_SCALE {
                None
            } else if count == 0 {
                Some((Seq::empty(), rest))
            } else {
                match take_scaled(rest, count as nat) {
                    None => None,
                    Some((pairs, rest)) => Some((readings(pairs, e as nat), rest)),
                }
            },
        },
    }
}

/// The points that a stream stands for.
pub open spec fn parsed(s: Seq<bool>) -> Option<Seq<Point>> {
    match taken(s) {
        None => None,
        Some((points, rest)) => Some(points),
    }
}

/// The points of a block are read back from its stream, whatever follows it.
pub proof fn lemma_roundtrip(points: Seq<Point>, e: nat, rest: Seq<bool>)
    requires
        points.len() <= u32::MAX,
        e <= MAX_SCALE,
        scales(points, e),
    ensures
        taken(stream(points, e) + rest) == Some((points, rest)),
{
    let count = points.len() as u64;
    let body = if points.len() == 0 {
        rest
    } else {
        scaled_bits(codec::timestamps(points), integers_of(points, e)) + rest
    };
    let second = bitseq::bits_of(e, 8) + body;
    assert(stream(points, e) + rest =~= bitseq::varint(count as nat) + second);
    bitseq::lemma_take_varint(count, second);
    lemma2_to64();
    bitseq::lemma_take_bits(e as u64, 8, body);
    if points.len() == 0 {
        assert(points =~= Seq::<Point>::empty());
    } else {
        let times = codec::timestamps(points);
        let integers = integers_of(points, e);
        lemma_take_scaled(times, integers, rest);
        assert forall|i: int| 0 <= i < points.len() implies #[trigger] readings(
            times.zip_with(integers),
            e,
        )[i] == points[i] by {
            assert(scaled_of(points[i].value, e) is Some);
            lemma_scaled(points[i].value, e);
        }
        assert(readings(times.zip_with(integers), e) =~= points);
    }
}

/// The integers that stand for the readings of a block at `exponent`, if all of them scale.
fn integers_at(points: &[Point], exponent: u8) -> (integers: Option<Vec<i64>>)
    requires
        exponent <= MAX_SCALE,
    ensures
        integers is Some <==> scales(points@, exponent as nat),
        integers matches Some(integers) ==> integers@ == integers_of(points@, exponent as nat),
{
    let mut integers: Vec<i64> = Vec::with_capacity(points.len());
    let mut i: usize = 0;
    while i < points.len()
        invariant
            exponent <= MAX_SCALE,
            i <= points.len(),
            integers@.len() == i,
            forall|j: int|
                0 <= j < i ==> #[trigger] scaled_of(points@[j].value, exponent as nat) == Some(
                    integers@[j],
                ),
        decreases points.len() - i,
    {
        match scaled(points[i].value, exponent) {
            None => {
                return None;
            },
            Some(integer) => integers.push(integer),
        }
        i = i + 1;
    }
    assert(integers@ =~= integers_of(points@, exponent as nat));
    Some(integers)
}

/// The smallest exponent at which every reading of a block scales, and the integers that stand
/// for them there.
pub(crate) fn choose_scale(points: &[Point]) -> (choice: Option<(u8, Vec<i64>)>)
    ensures
        match scale_from(points@, 0) {
            None => choice is None,
            Some(e) => {
                &&& choice matches Some((exponent, integers))
                &&& exponent == e
                &&& exponent <= MAX_SCALE
                &&& integers@ == integers_of(points@, e)
            },
        },
{
    let mut exponent: u8 = 0;
    while exponent <= MAX_SCALE
        invariant
            exponent <= MAX_SCALE + 1,
            scale_from(points@, 0) == scale_from(points@, exponent as nat),
        decreases MAX_SCALE + 1 - exponent,
    {
        if let Some(integers) = integers_at(points, exponent) {
            return Some((exponent, integers));
        }
        exponent = exponent + 1;
    }
    None
}

impl Codec for Decimal {
    open spec fn tag_of(&self, points: Seq<Point>) -> u8 {
        if scale_from(points, 0) is Some {
            TAG_DECIMAL
        } else {
            TAG_GORILLA
        }
    }

    open spec fn stream_of(&self, points: Seq<Point>) -> Seq<bool> {
        match scale_from(points, 0) {
            Some(e) => stream(points, e),
            None => gorilla::stream(points),
        }
    }

    open spec fn called(&self) -> Seq<char> {
        "decimal"@
    }

    fn name(&self) -> &'static str {
        "decimal"
    }

    fn encode(&self, points: &[Point]) -> Result<Vec<u8>, Error> {
        codec::check_count(points.len())?;
        if let Some((exponent, integers)) = choose_scale(points) {
            let mut w = BitWriter::with_capacity(points.len());
            w.write_varint(points.len() as u64);
            w.write_bits(exponent as u64, 8);
            if points.len() > 0 {
                write_scaled(&mut w, points, integers.as_slice());
            }
            assert(w@ =~= stream(points@, exponent as nat));
            let block: Vec<u8> = codec::seal(TAG_DECIMAL, w);
            proof {
                codec::lemma_decimal_lossless(points@, block@);
            }
            return Ok(block);
        }
        Gorilla.encode(points)
    }
}

/// The points that the body of a decimal block stands for.
pub fn decode(body: &[u8]) -> (result: Result<Vec<Point>, Error>)
    ensures
        codec::decodes(parsed(bitseq::unpack(body@)), result),
{
    let mut r = BitReader::new(body);
    let count: u64 = r.read_varint()?;
    let exponent: u64 = r.read_bits(8)?;
    if exponent > MAX_SCALE as u64 {
        return Err(Error::MalformedBlock);
    }
    if count == 0 {
        let points: Vec<Point> = Vec::new();
        assert(points@ =~= Seq::<Point>::empty());
        return Ok(points);
    }
    read_scaled(&mut r, count, exponent as u8)
}

/// Timestamps and integers taken off the front of a stream are taken off the front of any longer
/// one alike, and are as many as were asked for.
pub proof fn lemma_extend_scaled(s: Seq<bool>, count: nat, more: Seq<bool>)
    requires
        count > 0,
    ensures
        take_scaled(s, count) matches Some((pairs, rest)) ==> {
            &&& take_scaled(s + more, count) == Some((pairs, rest + more))
            &&& pairs.len() == count
        },
{
    bitseq::lemma_extend_varint(s, more);
    if let Some((timestamp, rest)) = bitseq::take_signed(s) {
        bitseq::lemma_extend_varint(rest, more);
        if let Some((integer, rest)) = bitseq::take_signed(rest) {
            dod::lemma_extend_pairs(
                Dod::start(timestamp),
                Dod::start(integer),
                (count - 1) as nat,
                rest,
                more,
            );
        }
    }
}

/// The point count says where a stream ends: what follows it changes nothing, and it stands for
/// as many points as it says.
pub proof fn lemma_count(s: Seq<bool>, more: Seq<bool>)
    ensures
        taken(s) matches Some((points, rest)) ==> {
            &&& taken(s + more) == Some((points, rest + more))
            &&& bitseq::take_varint(s) matches Some((count, _)) && count == points.len()
        },
{
    bitseq::lemma_extend_varint(s, more);
    if let Some((count, rest)) = bitseq::take_varint(s) {
        bitseq::lemma_extend_bits(rest, 8, more);
        if let Some((e, rest)) = bitseq::take_bits(rest, 8) {
            if count > 0 {
                lemma_extend_scaled(rest, count as nat, more);
            }
        }
    }
}

/// Negative zero does not scale at any exponent: it would come back as zero.
pub proof fn lemma_negative_zero(e: nat)
    ensures
        scaled_of(SIGN, e) is None,
{
    binary64::lemma_ten_to(e);
    assert(binary64::units(SIGN) == 0);
    assert(0nat * binary64::ten_to(e) == 0);
    lemma_zero_ratio(1);
    lemma_unscaled_zero(e);
    lemma_pow2_pos(1074);
    lemma_pow2_unfold(1075);
    lemma_basic_div(pow2(1074) as int, pow2(1075) as int);
}

} // verus!
