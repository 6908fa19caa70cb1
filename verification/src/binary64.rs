//! IEEE-754 binary64 numbers as exact integers.
//!
//! Every finite binary64 number is a whole multiple of the smallest subnormal, `2^-1074`, so a
//! magnitude is modelled as a natural number of those units, and a result that has to be rounded
//! as a ratio of two naturals.

use crate::bitseq;
use vstd::arithmetic::div_mod::*;
use vstd::arithmetic::mul::*;
use vstd::arithmetic::power::*;
use vstd::arithmetic::power2::*;
use vstd::prelude::*;

verus! {

/// `2^52`: the weight of the exponent field, and of the implicit leading bit.
pub const LEAD: u64 = 0x10_0000_0000_0000;

/// The sign bit.
pub const SIGN: u64 = 0x8000_0000_0000_0000;

/// The exponent field, with its bias.
pub open spec fn biased(bits: u64) -> nat {
    ((bits / LEAD) % 2048) as nat
}

/// Whether a pattern is a number, rather than an infinity or a not-a-number.
pub open spec fn is_finite(bits: u64) -> bool {
    biased(bits) != 2047
}

/// The magnitude of a finite pattern, in units of `2^-1074`.
pub open spec fn units(bits: u64) -> nat {
    if biased(bits) == 0 {
        (bits % LEAD) as nat
    } else {
        (LEAD + bits % LEAD) as nat * pow2((biased(bits) - 1) as nat)
    }
}

/// `num / den` to the nearest whole number, halves to the even one.
pub open spec fn half_even(num: nat, den: nat) -> nat {
    let floor = num / den;
    let twice = 2 * (num % den);
    if twice < den || (twice == den && floor % 2 == 0) {
        floor
    } else {
        floor + 1
    }
}

/// How many bits `num / den` units have in front of the 53 that a significand holds.
pub open spec fn place(num: nat, den: nat) -> nat {
    if num / den < pow2(53) {
        0
    } else {
        (bitseq::bit_length(num / den) - 53) as nat
    }
}

/// The pattern of the binary64 number nearest to `num / den` units, halves to even: the
/// significand is rounded at the place where 53 bits of it are left, and a carry out of it moves
/// on into the exponent field. Past the largest finite number it is infinity.
pub open spec fn nearest(num: nat, den: nat) -> u64 {
    let place = place(num, den);
    let pattern = place * LEAD + half_even(num, den * pow2(place));
    if pattern < 2047 * LEAD {
        pattern as u64
    } else {
        (2047 * LEAD) as u64
    }
}

/// `10^e`.
pub open spec fn ten_to(e: nat) -> nat {
    pow(10, e) as nat
}

/// A number with a leading bit at `k - 1` is `k` bits long.
pub proof fn lemma_bit_length(v: nat, k: nat)
    requires
        k > 0,
        pow2((k - 1) as nat) <= v < pow2(k),
    ensures
        bitseq::bit_length(v) == k,
    decreases k,
{
    lemma2_to64();
    lemma_pow2_pos((k - 1) as nat);
    lemma_pow2_unfold(k);
    if k == 1 {
        assert(bitseq::bit_length(0) == 0);
    } else {
        lemma_pow2_unfold((k - 1) as nat);
        lemma_bit_length(v / 2, (k - 1) as nat);
    }
}

/// A number of `k` bits has its leading bit at `k - 1`.
pub proof fn lemma_bit_length_bounds(v: nat)
    ensures
        v < pow2(bitseq::bit_length(v)),
        v > 0 ==> bitseq::bit_length(v) > 0 && pow2((bitseq::bit_length(v) - 1) as nat) <= v,
    decreases v,
{
    lemma2_to64();
    if v > 0 {
        lemma_bit_length_bounds(v / 2);
        let k = bitseq::bit_length(v);
        lemma_pow2_unfold(k);
        if k > 1 {
            lemma_pow2_unfold((k - 1) as nat);
        }
        assert(v / 2 == 0 ==> k == 1);
    }
}

/// Cancelling a common factor changes neither quotient nor rounding.
pub proof fn lemma_half_even_cancel(num: nat, den: nat, c: nat)
    requires
        den > 0,
        c > 0,
    ensures
        den * c > 0,
        half_even(num * c, den * c) == half_even(num, den),
        (num * c) / (den * c) == num / den,
{
    let q = num as int / den as int;
    let r = num as int % den as int;
    lemma_fundamental_div_mod(num as int, den as int);
    lemma_mul_strictly_positive(den as int, c as int);
    assert(num * c == q * (den * c) + r * c) by {
        lemma_mul_is_distributive_add_other_way(c as int, den * q, r);
        lemma_mul_is_commutative(den as int, q);
        lemma_mul_is_associative(q, den as int, c as int);
    }
    assert(0 <= r * c < den * c) by {
        lemma_mul_nonnegative(r, c as int);
        lemma_mul_strict_inequality(r, den as int, c as int);
    }
    lemma_fundamental_div_mod_converse((num * c) as int, (den * c) as int, q, r * c);
    assert(2 * (r * c) == (2 * r) * c) by {
        lemma_mul_is_associative(2, r, c as int);
    }
    if 2 * r < den {
        lemma_mul_strict_inequality(2 * r, den as int, c as int);
    } else if 2 * r > den {
        lemma_mul_strict_inequality(den as int, 2 * r, c as int);
    }
}

/// Rounding stays within whole bounds.
pub proof fn lemma_half_even_bounds(num: nat, den: nat, low: nat, high: nat)
    requires
        den > 0,
        low * den <= num <= high * den,
    ensures
        low <= half_even(num, den) <= high,
{
    let q = num as int / den as int;
    let r = num as int % den as int;
    lemma_fundamental_div_mod(num as int, den as int);
    lemma_mul_is_commutative(den as int, q);
    assert(low <= q) by {
        if q + 1 <= low {
            lemma_mul_inequality(q + 1, low as int, den as int);
            lemma_mul_is_distributive_add_other_way(den as int, q, 1);
        }
    }
    assert(q <= high) by {
        if high + 1 <= q {
            lemma_mul_inequality((high + 1) as int, q, den as int);
            lemma_mul_is_distributive_add_other_way(den as int, high as int, 1);
        }
    }
    if q == high {
        assert(r == 0);
    }
}

/// What a pattern made of a place and a significand amounts to.
pub proof fn lemma_units(place: nat, significand: nat)
    requires
        LEAD <= significand <= 2 * LEAD,
        place * LEAD + significand < 2047 * LEAD,
    ensures
        is_finite((place * LEAD + significand) as u64),
        units((place * LEAD + significand) as u64) == significand * pow2(place),
{
    let pattern = (place * LEAD + significand) as u64;
    if significand < 2 * LEAD {
        lemma_fundamental_div_mod_converse(
            pattern as int,
            LEAD as int,
            (place + 1) as int,
            significand - LEAD,
        );
        assert(biased(pattern) == place + 1);
    } else {
        lemma_fundamental_div_mod_converse(pattern as int, LEAD as int, (place + 2) as int, 0);
        assert(biased(pattern) == place + 2);
        lemma_pow2_unfold(place + 1);
        assert(LEAD * (2 * pow2(place)) == (2 * LEAD) * pow2(place)) by {
            lemma_mul_is_associative(LEAD as int, 2, pow2(place) as int);
        }
    }
}

/// The nearest number to a ratio whose leading bit is known.
pub proof fn lemma_nearest(num: nat, den: nat, place: nat)
    requires
        den > 0,
        LEAD * (den * pow2(place)) <= num < (2 * LEAD) * (den * pow2(place)),
    ensures
        LEAD <= half_even(num, den * pow2(place)) <= 2 * LEAD,
        place * LEAD + half_even(num, den * pow2(place)) < 2047 * LEAD ==> {
            &&& nearest(num, den) == place * LEAD + half_even(num, den * pow2(place))
            &&& is_finite(nearest(num, den))
            &&& units(nearest(num, den)) == half_even(num, den * pow2(place)) * pow2(place)
        },
        place * LEAD + half_even(num, den * pow2(place)) >= 2047 * LEAD ==> !is_finite(
            nearest(num, den),
        ),
{
    let scale = pow2(place);
    let u = num / den;
    lemma_pow2_pos(place);
    lemma2_to64();
    lemma2_to64_rest();
    lemma_mul_strictly_positive(den as int, scale as int);
    lemma_half_even_bounds(num, den * scale, LEAD as nat, (2 * LEAD) as nat);
    lemma_pow2_adds(52, place);
    lemma_pow2_adds(53, place);
    assert(pow2(52 + place) <= u < pow2(53 + place)) by {
        let low = (LEAD * scale) as int;
        let high = (2 * LEAD * scale) as int;
        assert(LEAD * (den * scale) == low * den && (2 * LEAD) * (den * scale) == high * den) by {
            lemma_mul_is_commutative(den as int, scale as int);
            lemma_mul_is_associative(LEAD as int, scale as int, den as int);
            lemma_mul_is_associative(2 * LEAD as int, scale as int, den as int);
        }
        lemma_fundamental_div_mod(num as int, den as int);
        lemma_mul_is_commutative(den as int, u as int);
        if u < low {
            lemma_mul_inequality((u + 1) as int, low, den as int);
            lemma_mul_is_distributive_add_other_way(den as int, u as int, 1);
        }
        if u >= high {
            lemma_mul_inequality(high, u as int, den as int);
        }
    }
    lemma_bit_length(u, 53 + place);
    if place > 0 {
        if place > 1 {
            lemma_pow2_strictly_increases(53, 52 + place);
        }
    }
    if place * LEAD + half_even(num, den * scale) < 2047 * LEAD {
        lemma_units(place, half_even(num, den * scale));
    }
}

/// The number nearest to a whole number of units, by how many bits that takes.
pub proof fn lemma_nearest_units(num: nat)
    requires
        num >= LEAD,
    ensures
        ({
            let length = bitseq::bit_length(num);
            let place = (length - 53) as nat;
            &&& length >= 53
            &&& LEAD * pow2(place) <= num < (2 * LEAD) * pow2(place)
            &&& is_finite(nearest(num, 1)) ==> units(nearest(num, 1)) == half_even(
                num,
                pow2(place),
            ) * pow2(place)
            &&& place <= 2044 ==> is_finite(nearest(num, 1))
            &&& LEAD <= half_even(num, pow2(place)) <= 2 * LEAD
        }),
{
    let length = bitseq::bit_length(num);
    lemma_bit_length_bounds(num);
    lemma2_to64();
    lemma2_to64_rest();
    assert(length >= 53) by {
        if length < 52 {
            lemma_pow2_strictly_increases(length, 52);
        }
    }
    let place = (length - 53) as nat;
    lemma_pow2_adds(52, place);
    lemma_pow2_adds(53, place);
    lemma_nearest(num, 1, place);
}

/// Rounding does not carry a number of units past a power of two that it was below.
pub proof fn lemma_nearest_below(num: nat, k: nat)
    requires
        num < pow2(k),
        53 <= k <= 2000,
    ensures
        is_finite(nearest(num, 1)),
        units(nearest(num, 1)) <= pow2(k),
{
    lemma2_to64();
    lemma2_to64_rest();
    if num < LEAD {
        assert(nearest(num, 1) == num);
        lemma_small_mod(num, LEAD as nat);
    } else {
        lemma_nearest_units(num);
        let length = bitseq::bit_length(num);
        let place = (length - 53) as nat;
        lemma_bit_length_bounds(num);
        if length > k {
            if length - 1 > k {
                lemma_pow2_strictly_increases(k, (length - 1) as nat);
            }
        }
        assert(length <= k);
        lemma_mul_inequality(
            half_even(num, pow2(place)) as int,
            2 * LEAD as int,
            pow2(place) as int,
        );
        lemma_pow2_adds(53, place);
        if length < k {
            lemma_pow2_strictly_increases(length, k);
        }
    }
}

/// Numbers of at most 52 bits, at any place that leaves them within reach, are binary64 numbers.
pub proof fn lemma_short(v: nat, up: nat)
    requires
        0 < v < LEAD,
        53 <= up <= 1900,
    ensures
        is_finite(nearest(v * pow2(up), 1)),
        units(nearest(v * pow2(up), 1)) == v * pow2(up),
{
    let length = bitseq::bit_length(v);
    lemma_bit_length_bounds(v);
    lemma2_to64();
    lemma2_to64_rest();
    assert(length <= 52) by {
        if length > 53 {
            lemma_pow2_strictly_increases(52, (length - 1) as nat);
        }
    }
    let fill = (53 - length) as nat;
    let place = (up - fill) as nat;
    let unit = pow2(place);
    let significand = v * pow2(fill);
    lemma_pow2_pos(place);
    lemma_pow2_pos(fill);
    lemma_pow2_adds(fill, place);
    lemma_mul_is_associative(v as int, pow2(fill) as int, unit as int);
    assert(v * pow2(up) == significand * unit);
    assert(LEAD <= significand < 2 * LEAD) by {
        lemma_pow2_adds((length - 1) as nat, fill);
        lemma_pow2_adds(length, fill);
        lemma_mul_inequality(pow2((length - 1) as nat) as int, v as int, pow2(fill) as int);
        lemma_mul_strict_inequality(v as int, pow2(length) as int, pow2(fill) as int);
    }
    lemma_mul_inequality(LEAD as int, significand as int, unit as int);
    lemma_mul_strict_inequality(significand as int, 2 * LEAD as int, unit as int);
    lemma_nearest(v * pow2(up), 1, place);
    lemma_half_even_bounds(significand * unit, unit, significand, significand);
}

/// The powers of ten up to the seventeenth are binary64 numbers, so scaling by one is scaling by
/// exactly that number.
pub proof fn lemma_ten_exact(e: nat)
    requires
        e <= 17,
    ensures
        units(nearest(ten_to(e) * pow2(1074), 1)) == ten_to(e) * pow2(1074),
{
    let five = pow(5, e);
    lemma_pow_positive(5, e);
    lemma_pow_increases(5, e, 17);
    assert(pow(5, 17) == 762_939_453_125) by {
        reveal_with_fuel(pow, 18);
    }
    lemma_pow_distributes(5, 2, e);
    lemma_pow2(e);
    lemma_pow2_adds(e, 1074);
    lemma_mul_is_associative(five, pow2(e) as int, pow2(1074) as int);
    lemma_short(five as nat, e + 1074);
}

/// How far a number of units is from `num / den`, in units of `1 / den`.
pub open spec fn distance(units: nat, num: nat, den: nat) -> nat {
    if units * den <= num {
        (num - units * den) as nat
    } else {
        (units * den - num) as nat
    }
}

/// Rounding to the nearest whole number: no other is nearer, and of two it is the even one.
proof fn lemma_half_even_nearest(num: nat, den: nat, k: nat)
    requires
        den > 0,
    ensures
        distance(half_even(num, den), num, den) <= distance(k, num, den),
        k != half_even(num, den) && distance(half_even(num, den), num, den) == distance(
            k,
            num,
            den,
        ) ==> half_even(num, den) % 2 == 0,
{
    let q = num as int / den as int;
    let r = num as int % den as int;
    lemma_fundamental_div_mod(num as int, den as int);
    lemma_mul_is_commutative(den as int, q);
    lemma_mul_is_distributive_add_other_way(den as int, q, 1);
    lemma_mul_is_distributive_add_other_way(den as int, q, 2);
    if k < q {
        lemma_mul_inequality((k + 1) as int, q, den as int);
        lemma_mul_is_distributive_add_other_way(den as int, k as int, 1);
    } else if k > q + 1 {
        lemma_mul_inequality(q + 2, k as int, den as int);
    }
}

/// What the nearest number amounts to: its significand at its place.
proof fn lemma_nearest_at_place(num: nat, den: nat)
    requires
        den > 0,
        is_finite(nearest(num, den)),
    ensures
        units(nearest(num, den)) == half_even(num, den * pow2(place(num, den))) * pow2(
            place(num, den),
        ),
        place(num, den) > 0 ==> LEAD * (den * pow2(place(num, den))) <= num,
{
    let p = place(num, den);
    let u = num / den;
    let scale = pow2(p);
    lemma2_to64();
    lemma2_to64_rest();
    lemma_pow2_pos(p);
    lemma_fundamental_div_mod(num as int, den as int);
    lemma_mul_is_commutative(den as int, u as int);
    lemma_mul_is_distributive_add_other_way(den as int, u as int, 1);
    if u < LEAD {
        assert(p == 0);
        assert(den * pow2(0) == den);
        lemma_mul_inequality((u + 1) as int, LEAD as int, den as int);
        lemma_half_even_bounds(num, den, 0, LEAD as nat);
        let m = half_even(num, den);
        assert(m <= LEAD);
        if m < LEAD {
            lemma_small_mod(m, LEAD as nat);
            assert(units(m as u64) == m);
        } else {
            assert(units(LEAD) == LEAD * pow2(0));
        }
        assert(m * pow2(0) == m);
    } else {
        lemma_bit_length_bounds(u);
        let length = bitseq::bit_length(u);
        assert(length >= 53) by {
            if length < 52 {
                lemma_pow2_strictly_increases(length, 52);
            }
        }
        assert(p == length - 53) by {
            if length > 53 {
                if length > 54 {
                    lemma_pow2_strictly_increases(53, (length - 1) as nat);
                }
            }
        }
        lemma_pow2_adds(52, p);
        lemma_pow2_adds(53, p);
        assert(LEAD * (den * scale) <= num < (2 * LEAD) * (den * scale)) by {
            lemma_mul_is_commutative(den as int, scale as int);
            lemma_mul_is_associative(LEAD as int, scale as int, den as int);
            lemma_mul_is_associative(2 * LEAD as int, scale as int, den as int);
            lemma_mul_inequality(LEAD * scale, u as int, den as int);
            lemma_mul_inequality((u + 1) as int, 2 * LEAD * scale, den as int);
        }
        lemma_nearest(num, den, p);
    }
}

/// Rounding gives the nearest number: no finite pattern is nearer to `num / den` units, and of
/// two that are equally near it is the even one.
pub proof fn lemma_no_nearer(num: nat, den: nat, bits: u64)
    requires
        den > 0,
        is_finite(nearest(num, den)),
        is_finite(bits),
    ensures
        distance(units(nearest(num, den)), num, den) <= distance(units(bits), num, den),
        units(bits) != units(nearest(num, den)) && distance(units(nearest(num, den)), num, den)
            == distance(units(bits), num, den) ==> nearest(num, den) % 2 == 0,
{
    let p = place(num, den);
    let scale = pow2(p);
    let whole = den * scale;
    let m = half_even(num, whole);
    let b = biased(bits);
    let sig = (LEAD + bits % LEAD) as nat;
    lemma_nearest_at_place(num, den);
    lemma_pow2_pos(p);
    lemma2_to64();
    lemma2_to64_rest();
    lemma_mul_strictly_positive(den as int, scale as int);
    assert(forall|k: nat| #[trigger] (k * scale) * den == k * whole) by {
        assert forall|k: nat| #[trigger] (k * scale) * den == k * whole by {
            lemma_mul_is_commutative(den as int, scale as int);
            lemma_mul_is_associative(k as int, scale as int, den as int);
        }
    }
    assert(units(nearest(num, den)) * den == (m * scale) * den);
    if p == 0 {
        assert(units(bits) * pow2(0) == units(bits));
        lemma_half_even_nearest(num, whole, units(bits));
        assert((units(bits) * scale) * den == units(bits) * whole);
    } else if b >= 1 && b - 1 >= p {
        let up = pow2((b - 1 - p) as nat);
        let k = sig * up;
        lemma_pow2_adds((b - 1 - p) as nat, p);
        lemma_mul_is_associative(sig as int, up as int, scale as int);
        assert(units(bits) == k * scale);
        assert((k * scale) * den == k * whole);
        lemma_half_even_nearest(num, whole, k);
    } else {
        let lead = LEAD as nat;
        assert(units(bits) <= lead * scale) by {
            if b == 0 {
                lemma_mul_inequality(1, scale as int, lead as int);
                lemma_mul_is_commutative(scale as int, lead as int);
            } else {
                let low = pow2((b - 1) as nat);
                lemma_pow2_unfold(p);
                let half = pow2((p - 1) as nat);
                if b - 1 < p - 1 {
                    lemma_pow2_strictly_increases((b - 1) as nat, (p - 1) as nat);
                }
                lemma_mul_upper_bound(sig as int, 2 * lead as int, low as int, half as int);
                assert((2 * lead) * half == lead * scale) by {
                    lemma_mul_is_associative(lead as int, 2, half as int);
                }
            }
        }
        assert((lead * scale) * den == lead * whole);
        lemma_mul_inequality(units(bits) as int, (lead * scale) as int, den as int);
        lemma_half_even_nearest(num, whole, lead);
    }
}

/// Rounding keeps order.
pub proof fn lemma_ordered(low: nat, high: nat)
    requires
        low <= high,
        is_finite(nearest(low, 1)),
        is_finite(nearest(high, 1)),
    ensures
        units(nearest(low, 1)) <= units(nearest(high, 1)),
{
    lemma_no_nearer(low, 1, nearest(high, 1));
    lemma_no_nearer(high, 1, nearest(low, 1));
}

/// Numbers round to themselves.
pub proof fn lemma_exact(bits: u64)
    requires
        is_finite(bits),
        bits < SIGN,
    ensures
        nearest(units(bits), 1) == bits,
{
    let b = biased(bits);
    let u = units(bits);
    lemma2_to64();
    lemma2_to64_rest();
    lemma_fundamental_div_mod(bits as int, LEAD as int);
    if b <= 1 {
        assert(u == bits) by {
            assert((LEAD + bits % LEAD) as nat * pow2(0) == LEAD + bits % LEAD);
        }
        assert(place(u, 1) == 0);
        assert(half_even(u, 1) == u);
    } else {
        let p = (b - 1) as nat;
        let scale = pow2(p);
        let sig = (LEAD + bits % LEAD) as nat;
        lemma_pow2_pos(p);
        lemma_mul_inequality(LEAD as int, sig as int, scale as int);
        lemma_mul_strict_inequality(sig as int, 2 * LEAD as int, scale as int);
        lemma_nearest(u, 1, p);
        lemma_half_even_bounds(sig * scale, scale, sig, sig);
    }
}

/// A quotient of a number that is not huge is a number.
pub proof fn lemma_quotient(num: nat, den: nat, k: nat)
    requires
        num <= pow2(k),
        den > 0,
        53 <= k <= 2000,
    ensures
        is_finite(nearest(num, den)),
{
    let u = num / den;
    let p = place(num, den);
    let scale = pow2(p);
    lemma_pow2_pos(p);
    lemma_pow2_pos(k);
    lemma2_to64_rest();
    lemma_div_is_ordered_by_denominator(num as int, 1, den as int);
    lemma_bit_length_bounds(u);
    let length = bitseq::bit_length(u);
    assert(p <= k) by {
        assert(u <= pow2(k));
        if length > k + 1 {
            lemma_pow2_strictly_increases(k, (length - 1) as nat);
        }
        if u >= pow2(53) && length < 53 {
            lemma_pow2_strictly_increases(length, 53);
        }
    }
    assert(u < pow2(53) * scale) by {
        if u < pow2(53) {
            lemma_mul_inequality(1, scale as int, pow2(53) as int);
            lemma_mul_is_commutative(scale as int, pow2(53) as int);
        } else {
            if length < 53 {
                lemma_pow2_strictly_increases(length, 53);
            }
            lemma_pow2_adds(53, p);
        }
    }
    lemma_multiply_divide_lt(u as int, scale as int, pow2(53) as int);
    lemma_div_denominator(num as int, den as int, scale as int);
    let m = half_even(num, den * scale);
    assert(m <= 2 * LEAD);
    assert(p * LEAD + m < 2047 * LEAD) by (nonlinear_arith)
        requires
            p <= 2000,
            m <= 2 * LEAD,
            LEAD == 0x10_0000_0000_0000,
    ;
    let pattern = (p * LEAD + m) as u64;
    assert(pattern / LEAD < 2047);
}

/// Whole numbers up to `2^53` are binary64 numbers.
pub proof fn lemma_whole_exact(size: nat)
    requires
        size <= 2 * LEAD,
    ensures
        units(nearest(size * pow2(1074), 1)) == size * pow2(1074),
{
    let unit = pow2(1074);
    lemma_pow2_pos(1074);
    lemma2_to64();
    lemma2_to64_rest();
    if size == 0 {
        assert(0nat * unit == 0);
        lemma_half_even_bounds(0, 1, 0, 0);
        assert(1nat * pow2(0) == 1);
        assert(nearest(0, 1) == 0);
    } else if size < LEAD {
        lemma_short(size, 1074);
    } else if size < 2 * LEAD {
        lemma_mul_inequality(LEAD as int, size as int, unit as int);
        lemma_mul_strict_inequality(size as int, 2 * LEAD as int, unit as int);
        lemma_nearest(size * unit, 1, 1074);
        lemma_half_even_bounds(size * unit, unit, size, size);
    } else {
        let twice = pow2(1075);
        lemma_pow2_unfold(1075);
        lemma_mul_is_associative(LEAD as int, 2, unit as int);
        assert(size * unit == LEAD * twice);
        lemma_mul_strict_inequality(LEAD as int, 2 * LEAD as int, twice as int);
        lemma_nearest(size * unit, 1, 1075);
        lemma_half_even_bounds(size * unit, twice, LEAD as nat, LEAD as nat);
    }
}

/// Powers of ten are positive, and those up to the seventeenth fit in 57 bits.
pub proof fn lemma_ten_to(e: nat)
    ensures
        ten_to(e) > 0,
        ten_to(e + 1) == 10 * ten_to(e),
        e <= 17 ==> ten_to(e) <= 100_000_000_000_000_000,
{
    lemma_pow_positive(10, e);
    lemma_pow_positive(10, e + 1);
    reveal_with_fuel(pow, 2);
    if e <= 17 {
        lemma_pow_increases(10, e, 17);
        assert(pow(10, 17) == 100_000_000_000_000_000) by {
            reveal_with_fuel(pow, 18);
        }
    }
}

/// `num / den` to the nearest whole number, halves to the even one.
pub fn round_half_even(num: u128, den: u128) -> (rounded: u128)
    requires
        den > 0,
        num <= u128::MAX / 2,
    ensures
        rounded == half_even(num as nat, den as nat),
{
    let floor: u128 = num / den;
    let remainder: u128 = num % den;
    assert(floor <= num) by {
        lemma_div_is_ordered_by_denominator(num as int, 1, den as int);
    }
    if remainder < den - remainder || (remainder == den - remainder && floor % 2 == 0) {
        floor
    } else {
        floor + 1
    }
}

/// `10^e`.
pub fn power_of_ten(e: u8) -> (power: u64)
    requires
        e <= 17,
    ensures
        power == ten_to(e as nat),
{
    let mut power: u64 = 1;
    let mut i: u8 = 0;
    proof {
        lemma_pow0(10);
    }
    while i < e
        invariant
            i <= e <= 17,
            power == ten_to(i as nat),
        decreases e - i,
    {
        proof {
            lemma_ten_to(i as nat);
            lemma_ten_to((i + 1) as nat);
        }
        power = power * 10;
        i = i + 1;
    }
    power
}

/// The pattern of the number nearest to `num / den`.
pub fn divide(num: u64, den: u64) -> (pattern: u64)
    requires
        0 < num <= 0x8000_0000_0000_0000,
        0 < den <= 100_000_000_000_000_000,
    ensures
        pattern == nearest(num as nat * pow2(1074), den as nat),
        pattern < 0x8000_0000_0000_0000,
{
    let mut top: u128 = num as u128;
    let mut bottom: u128 = den as u128;
    let mut place: u64 = 1074;
    let ghost mut a: nat = 0;
    let ghost mut b: nat = 0;
    proof {
        lemma2_to64();
    }
    while top >= bottom * 0x20_0000_0000_0000
        invariant
            0 < num <= 0x8000_0000_0000_0000,
            0 < den <= 100_000_000_000_000_000,
            top == num,
            b <= 20,
            place == 1074 + b,
            bottom == den * pow2(b),
            b == 0 || top >= bottom * 0x10_0000_0000_0000,
            den <= bottom <= 100_000_000_000_000_000,
        decreases 0x10_0000_0000_0000_0000 - bottom,
    {
        proof {
            lemma_pow2_unfold(b + 1);
            assert(den * (2 * pow2(b)) == 2 * (den * pow2(b))) by {
                lemma_mul_is_associative(den as int, 2, pow2(b) as int);
                lemma_mul_is_associative(2, den as int, pow2(b) as int);
            }
            assert(b <= 10) by {
                lemma_mul_inequality(1, den as int, pow2(b) as int);
                if b >= 11 {
                    if b > 11 {
                        lemma_pow2_strictly_increases(11, b);
                    }
                    lemma2_to64();
                }
            }
            b = b + 1;
        }
        bottom = bottom * 2;
        place = place + 1;
    }
    while top < bottom * 0x10_0000_0000_0000
        invariant
            0 < num <= 0x8000_0000_0000_0000,
            0 < den <= 100_000_000_000_000_000,
            b <= 20,
            a <= 110,
            place == 1074 + b - a,
            bottom == den * pow2(b),
            top == num * pow2(a),
            top < bottom * 0x20_0000_0000_0000,
            num <= top,
            den <= bottom <= 100_000_000_000_000_000,
        decreases bottom * 0x20_0000_0000_0000 - top,
    {
        proof {
            lemma_pow2_unfold(a + 1);
            assert(num * (2 * pow2(a)) == 2 * (num * pow2(a))) by {
                lemma_mul_is_associative(num as int, 2, pow2(a) as int);
                lemma_mul_is_associative(2, num as int, pow2(a) as int);
            }
            assert(a < 110) by {
                lemma_mul_inequality(1, num as int, pow2(a) as int);
                if a >= 110 {
                    if a > 110 {
                        lemma_pow2_strictly_increases(110, a);
                    }
                    lemma_pow2_adds(55, 55);
                    lemma2_to64_rest();
                    assert(0x80_0000_0000_0000 * 0x80_0000_0000_0000 > 100_000_000_000_000_000
                        * 0x10_0000_0000_0000) by (nonlinear_arith);
                }
            }
            a = a + 1;
        }
        top = top * 2;
        place = place - 1;
    }
    proof {
        let c = pow2((1074 - a) as nat);
        lemma_pow2_pos((1074 - a) as nat);
        let scaled_den = den as nat * pow2(place as nat);
        assert(num as nat * pow2(1074) == top as nat * c) by {
            lemma_pow2_adds(a, (1074 - a) as nat);
            lemma_mul_is_associative(num as int, pow2(a) as int, c as int);
        }
        assert(scaled_den == bottom as nat * c) by {
            lemma_pow2_adds(b, (1074 - a) as nat);
            lemma_mul_is_associative(den as int, pow2(b) as int, c as int);
        }
        assert(LEAD * scaled_den <= top as nat * c < (2 * LEAD) * scaled_den) by {
            lemma_mul_is_associative(LEAD as int, bottom as int, c as int);
            lemma_mul_is_associative(2 * LEAD as int, bottom as int, c as int);
            lemma_mul_inequality(LEAD * bottom, top as int, c as int);
            lemma_mul_strict_inequality(top as int, 2 * LEAD * bottom, c as int);
        }
        lemma_nearest(num as nat * pow2(1074), den as nat, place as nat);
        lemma_half_even_cancel(top as nat, bottom as nat, c);
    }
    let significand: u64 = round_half_even(top, bottom) as u64;
    place * LEAD + significand
}

/// A whole number rounded to what a significand holds.
pub fn round_whole(magnitude: u64) -> (whole: u64)
    requires
        0 < magnitude <= 0x8000_0000_0000_0000,
    ensures
        whole as nat * pow2(1074) == units(nearest(magnitude as nat * pow2(1074), 1)),
        0 < whole <= 0x8000_0000_0000_0000,
{
    let mut ulp: u64 = 1;
    let ghost mut t: nat = 0;
    proof {
        lemma2_to64();
    }
    while magnitude / ulp >= 0x20_0000_0000_0000
        invariant
            0 < magnitude <= 0x8000_0000_0000_0000,
            ulp == pow2(t),
            t <= 11,
            0 < ulp <= 0x800,
            t == 0 || magnitude >= ulp * 0x10_0000_0000_0000,
        decreases 0x1000 - ulp,
    {
        proof {
            lemma_pow2_unfold(t + 1);
            lemma_fundamental_div_mod(magnitude as int, ulp as int);
            lemma_mul_inequality(0x20_0000_0000_0000, (magnitude / ulp) as int, ulp as int);
            lemma_mul_is_commutative(ulp as int, (magnitude / ulp) as int);
            lemma2_to64();
            assert(t <= 10);
            t = t + 1;
        }
        ulp = ulp * 2;
    }
    let significand: u64 = round_half_even(magnitude as u128, ulp as u128) as u64;
    proof {
        let unit = pow2(1074);
        let room = pow2((63 - t) as nat);
        lemma_pow2_pos(1074);
        lemma2_to64();
        lemma2_to64_rest();
        lemma_pow2_adds((63 - t) as nat, t);
        lemma_half_even_bounds(magnitude as nat, ulp as nat, 0, room);
        lemma_mul_inequality(significand as int, room as int, ulp as int);
        lemma_fundamental_div_mod(magnitude as int, ulp as int);
        lemma_mul_is_commutative(ulp as int, (magnitude / ulp) as int);
        lemma_mul_inequality((magnitude / ulp + 1) as int, 0x20_0000_0000_0000, ulp as int);
        lemma_mul_is_distributive_add_other_way(ulp as int, (magnitude / ulp) as int, 1);
        assert(magnitude < 0x20_0000_0000_0000 * ulp);
        if magnitude < LEAD {
            lemma_short(magnitude as nat, 1074);
            assert(significand == magnitude && ulp == 1);
        } else {
            assert(LEAD * ulp <= magnitude);
            lemma_pow2_adds(t, 1074);
            lemma_mul_inequality(LEAD * ulp, magnitude as int, unit as int);
            lemma_mul_strict_inequality(magnitude as int, 2 * LEAD * ulp, unit as int);
            lemma_mul_is_associative(LEAD as int, ulp as int, unit as int);
            lemma_mul_is_associative(2 * LEAD as int, ulp as int, unit as int);
            lemma_nearest(magnitude as nat * unit, 1, t + 1074);
            lemma_half_even_cancel(magnitude as nat, ulp as nat, unit);
            lemma_mul_is_associative(significand as int, ulp as int, unit as int);
            lemma_half_even_bounds(magnitude as nat, ulp as nat, LEAD as nat, room);
            lemma_mul_strictly_positive(significand as int, ulp as int);
        }
    }
    significand * ulp
}

} // verus!
