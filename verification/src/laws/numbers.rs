//! Readings and the integers that stand for them: what a pattern is worth, what rounding gives,
//! and which readings scale.

use crate::binary64;
use crate::codec::decimal;
use vstd::arithmetic::div_mod::*;
use vstd::arithmetic::mul::*;
use vstd::arithmetic::power2::*;
use vstd::prelude::*;

verus! {

/// What a pattern is worth, in units of the smallest positive number: the patterns up to `2^53`
/// are worth themselves, one step of the exponent field doubles, and the sign changes nothing. A
/// pattern with all ones in the exponent field is no number.
pub proof fn law_units(pattern: u64)
    ensures
        pattern < 0x20_0000_0000_0000 ==> binary64::units(pattern) == pattern
            && binary64::is_finite(pattern),
        0x10_0000_0000_0000 <= pattern < 0x7fe0_0000_0000_0000 ==> binary64::units(
            (pattern + 0x10_0000_0000_0000) as u64,
        ) == 2 * binary64::units(pattern) && binary64::is_finite(pattern),
        pattern < 0x8000_0000_0000_0000 ==> binary64::units(
            (pattern + 0x8000_0000_0000_0000) as u64,
        ) == binary64::units(pattern) && binary64::is_finite(
            (pattern + 0x8000_0000_0000_0000) as u64,
        ) == binary64::is_finite(pattern),
        0x7ff0_0000_0000_0000 <= pattern < 0x8000_0000_0000_0000 ==> !binary64::is_finite(pattern),
        0x7fe0_0000_0000_0000 <= pattern < 0x7ff0_0000_0000_0000 ==> binary64::is_finite(pattern),
{
    let lead = 0x10_0000_0000_0000int;
    lemma2_to64();
    lemma_fundamental_div_mod(pattern as int, lead);
    if pattern < 0x20_0000_0000_0000 {
        assert((lead + pattern as int % lead) * pow2(0) == lead + pattern as int % lead);
    }
    if lead <= pattern < 0x7fe0_0000_0000_0000 {
        let next = (pattern + lead) as u64;
        let b = binary64::biased(pattern);
        assert(b >= 1 && b < 2046 && b == pattern as int / lead);
        assert(next as int / lead == b + 1 && next as int % lead == pattern as int % lead);
        assert(binary64::biased(next) == b + 1);
        lemma_pow2_unfold(b);
        let sig = lead + pattern as int % lead;
        let up = pow2((b - 1) as nat) as int;
        lemma_mul_is_associative(sig, 2, up);
        lemma_mul_is_associative(2, sig, up);
        lemma_mul_is_commutative(2, sig);
    }
    if pattern < 0x8000_0000_0000_0000 {
        let signed = (pattern + 0x8000_0000_0000_0000) as u64;
        assert(signed as int % lead == pattern as int % lead);
        assert(signed as int / lead == pattern as int / lead + 2048);
    }
}

/// The powers of ten.
pub proof fn law_ten(e: nat)
    ensures
        binary64::ten_to(0) == 1,
        binary64::ten_to(e + 1) == 10 * binary64::ten_to(e),
{
    binary64::lemma_ten_to(e);
    vstd::arithmetic::power::lemma_pow0(10);
}

/// How far `a` is from `b`.
pub open spec fn gap(a: nat, b: nat) -> int {
    if a < b {
        b - a
    } else {
        a - b
    }
}

/// Whether `pattern` is what `num / den` units round to: no number is nearer, and one that is as
/// near is the odd one of the two.
pub open spec fn rounds(num: nat, den: nat, pattern: u64) -> bool {
    forall|other: u64| #[trigger]
        binary64::is_finite(other) ==> {
            let here = gap(binary64::units(pattern) * den, num);
            let there = gap(binary64::units(other) * den, num);
            here <= there && (here == there && binary64::units(other) != binary64::units(pattern)
                ==> pattern % 2 == 0)
        }
}

/// Rounding gives the nearest number, halves to even.
pub proof fn law_nearest(num: nat, den: nat)
    requires
        den > 0,
        binary64::is_finite(binary64::nearest(num, den)),
    ensures
        rounds(num, den, binary64::nearest(num, den)),
        binary64::nearest(num, den) < 0x8000_0000_0000_0000,
{
    assert forall|other: u64| #[trigger] binary64::is_finite(other) implies {
        let here = gap(
            binary64::units(binary64::nearest(num, den)) * den,
            num,
        );
        let there = gap(binary64::units(other) * den, num);
        here <= there && (here == there && binary64::units(other) != binary64::units(
            binary64::nearest(num, den),
        ) ==> binary64::nearest(num, den) % 2 == 0)
    } by {
        binary64::lemma_no_nearer(num, den, other);
    }
}

/// Rounding to a whole number: at most half away, and the even one where it is exactly half.
pub proof fn law_half_even(num: nat, den: nat)
    requires
        den > 0,
    ensures
        2 * gap(binary64::half_even(num, den) * den, num) <= den,
        2 * gap(binary64::half_even(num, den) * den, num) == den ==> binary64::half_even(num, den)
            % 2 == 0,
{
    let q = num as int / den as int;
    lemma_fundamental_div_mod(num as int, den as int);
    lemma_mul_is_commutative(den as int, q);
    lemma_mul_is_distributive_add_other_way(den as int, q, 1);
}

/// A reading times a power of ten, as an integer: the product rounded, and that taken to the
/// nearest integer, a half away from zero. There is none for what is no number, nor where the
/// rounded product is more than `2^53`.
pub proof fn law_whole(value: u64, e: nat)
    ensures
        !binary64::is_finite(value) ==> decimal::whole_of(value, e) is None,
        ({
            let product = binary64::nearest(binary64::units(value) * binary64::ten_to(e), 1);
            let one = pow2(1074);
            binary64::is_finite(value) ==> match decimal::whole_of(value, e) {
                None => !binary64::is_finite(product) || binary64::units(product)
                    > 0x20_0000_0000_0000 * one,
                Some(n) => {
                    &&& binary64::is_finite(product)
                    &&& binary64::units(product) <= 0x20_0000_0000_0000 * one
                    &&& rounds(binary64::units(value) * binary64::ten_to(e), 1, product)
                    &&& value < 0x8000_0000_0000_0000 ==> n >= 0 && 2 * n * one - one <= 2
                        * binary64::units(product) < 2 * n * one + one
                    &&& value >= 0x8000_0000_0000_0000 ==> n <= 0 && 2 * (-n) * one - one <= 2
                        * binary64::units(product) < 2 * (-n) * one + one
                },
            }
        }),
{
    let product = binary64::nearest(binary64::units(value) * binary64::ten_to(e), 1);
    let one = pow2(1074) as int;
    lemma2_to64_rest();
    if decimal::whole_of(value, e) is Some {
        law_nearest(binary64::units(value) * binary64::ten_to(e), 1);
        let units = binary64::units(product) as int;
        let n = decimal::nearest_whole(binary64::units(product)) as int;
        decimal::lemma_whole_bound(binary64::units(product));
        lemma_pow2_pos(1074);
        lemma_pow2_unfold(1075);
        lemma_fundamental_div_mod(2 * units + one, 2 * one);
        lemma_mod_bound(2 * units + one, 2 * one);
        assert((2 * one) * n == 2 * n * one) by {
            lemma_mul_is_associative(2, one, n);
            lemma_mul_is_commutative(one, n);
            lemma_mul_is_associative(2, n, one);
        }
    }
}

/// An integer divided by a power of ten: the integer rounded, which changes none up to `2^53`,
/// then the quotient rounded; negative for a negative integer, and zero is positive.
pub proof fn law_unscaled(n: i64, e: nat)
    requires
        e <= 17,
    ensures
        ({
            let size = (if n < 0 {
                -n
            } else {
                n as int
            }) as nat;
            let whole = binary64::nearest(size * pow2(1074), 1);
            let value = decimal::unscaled_of(n, e);
            let quotient = (if n < 0 {
                value - 0x8000_0000_0000_0000
            } else {
                value as int
            }) as u64;
            &&& n < 0 ==> value >= 0x8000_0000_0000_0000
            &&& n >= 0 ==> value < 0x8000_0000_0000_0000
            &&& size <= 0x20_0000_0000_0000 ==> binary64::units(whole) == size * pow2(1074)
            &&& rounds(size * pow2(1074), 1, whole)
            &&& rounds(binary64::units(whole), binary64::ten_to(e), quotient)
        }),
        decimal::unscaled_of(0, e) == 0,
{
    let size = (if n < 0 {
        -n
    } else {
        n as int
    }) as nat;
    let num = size * pow2(1074);
    let whole = binary64::nearest(num, 1);
    let ten = binary64::ten_to(e);
    binary64::lemma_ten_to(e);
    decimal::lemma_unscaled_zero(e);
    lemma_pow2_pos(1074);
    lemma2_to64_rest();
    assert(num < pow2(1138)) by {
        lemma_pow2_adds(64, 1074);
        lemma_mul_strict_inequality(size as int, pow2(64) as int, pow2(1074) as int);
    }
    binary64::lemma_nearest_below(num, 1138);
    law_nearest(num, 1);
    binary64::lemma_quotient(binary64::units(whole), ten, 1138);
    law_nearest(binary64::units(whole), ten);
    if size <= 0x20_0000_0000_0000 {
        binary64::lemma_whole_exact(size);
    }
}

/// A reading scales at an exponent exactly when the integer that it comes to there gives it back,
/// bit for bit.
pub proof fn law_scaled(value: u64, e: nat, n: i64)
    ensures
        decimal::scaled_of(value, e) == Some(n) <==> decimal::whole_of(value, e) == Some(n)
            && decimal::unscaled_of(n, e) == value,
        decimal::scaled_of(value, e) is Some ==> decimal::whole_of(value, e) is Some,
        decimal::scaled_of(0x8000_0000_0000_0000, e) is None,
{
    decimal::lemma_negative_zero(e);
}

} // verus!
