//! The mathematical model of a bit stream: sequences of bits, most significant first, and how
//! numbers are laid out in them and taken off their front.

use vstd::arithmetic::div_mod::*;
use vstd::arithmetic::mul::*;
use vstd::arithmetic::power2::*;
use vstd::prelude::*;
use vstd::std_specs::bits::*;

verus! {

/// The low `n` bits of `v`, most significant first.
pub open spec fn bits_of(v: nat, n: nat) -> Seq<bool>
    decreases n,
{
    if n == 0 {
        Seq::empty()
    } else {
        bits_of(v / 2, (n - 1) as nat).push(v % 2 == 1)
    }
}

/// The number that a sequence of bits spells, most significant first.
pub open spec fn value_of(s: Seq<bool>) -> nat
    decreases s.len(),
{
    if s.len() == 0 {
        0
    } else {
        2 * value_of(s.drop_last()) + (if s.last() { 1nat } else { 0nat })
    }
}

/// How many bits it takes to write `v` without leading zeros; none for zero.
pub open spec fn bit_length(v: nat) -> nat
    decreases v,
{
    if v == 0 {
        0
    } else {
        1 + bit_length(v / 2)
    }
}

/// `n` zero bits.
pub open spec fn zeros(n: nat) -> Seq<bool> {
    Seq::new(n, |i: int| false)
}

/// The bits of one byte, counted from the most significant.
pub open spec fn bit_at(byte: u8, i: int) -> bool {
    (byte >> ((7 - i) as u8)) & 1u8 == 1u8
}

/// The bits of a run of bytes, in order.
pub open spec fn unpack(bytes: Seq<u8>) -> Seq<bool> {
    Seq::new(8 * bytes.len(), |i: int| bit_at(bytes[i / 8], i % 8))
}

/// A stream filled up with zero bits to a whole number of bytes.
pub open spec fn padded(s: Seq<bool>) -> Seq<bool> {
    s + zeros(((8 - s.len() % 8) % 8) as nat)
}

/// LEB128: seven payload bits to a byte, least significant group first, the high bit of a byte
/// set while more follow.
pub open spec fn varint(v: nat) -> Seq<bool>
    decreases v,
{
    if v < 128 {
        bits_of(v, 8)
    } else {
        bits_of(128 + v % 128, 8) + varint(v / 128)
    }
}

/// Signed values folded onto the naturals so that small magnitudes stay small.
pub open spec fn zigzag_of(v: i64) -> u64 {
    if v >= 0 {
        (2 * v) as u64
    } else {
        (-2 * v - 1) as u64
    }
}

/// The signed value that folds onto `v`.
pub open spec fn unzigzag_of(v: u64) -> i64 {
    if v % 2 == 0 {
        (v / 2) as i64
    } else {
        (-((v / 2) as int) - 1) as i64
    }
}

/// The 64-bit two's complement of `d`.
pub open spec fn twos(d: i64) -> u64 {
    if d >= 0 {
        d as u64
    } else {
        (d + 0x1_0000_0000_0000_0000) as u64
    }
}

/// The value whose 64-bit two's complement is `v`.
pub open spec fn untwos(v: u64) -> i64 {
    if v < 0x8000_0000_0000_0000 {
        v as i64
    } else {
        (v - 0x1_0000_0000_0000_0000) as i64
    }
}

/// Takes one bit off the front of a stream.
pub open spec fn take_bit(s: Seq<bool>) -> Option<(bool, Seq<bool>)> {
    if s.len() == 0 {
        None
    } else {
        Some((s[0], s.skip(1)))
    }
}

/// Takes an `n`-bit number off the front of a stream.
pub open spec fn take_bits(s: Seq<bool>, n: nat) -> Option<(u64, Seq<bool>)> {
    if s.len() < n {
        None
    } else {
        Some((value_of(s.take(n as int)) as u64, s.skip(n as int)))
    }
}

/// Takes the groups of a varint off the front of a stream, the first of them weighing
/// `2^shift`. There is no number when the stream ends early, or when a group does not fit in
/// 64 bits.
pub open spec fn take_groups(s: Seq<bool>, shift: nat) -> Option<(nat, Seq<bool>)>
    decreases 70 - shift,
{
    if shift > 63 {
        None
    } else {
        match take_bits(s, 8) {
            None => None,
            Some((group, rest)) => {
                let weighted = (group as nat % 128) * pow2(shift);
                if weighted > u64::MAX {
                    None
                } else if group < 128 {
                    Some((weighted, rest))
                } else {
                    match take_groups(rest, shift + 7) {
                        None => None,
                        Some((higher, rest)) => Some((weighted + higher, rest)),
                    }
                }
            },
        }
    }
}

/// Takes a varint off the front of a stream.
pub open spec fn take_varint(s: Seq<bool>) -> Option<(u64, Seq<bool>)> {
    match take_groups(s, 0) {
        None => None,
        Some((v, rest)) => Some((v as u64, rest)),
    }
}

/// Takes a zigzagged varint off the front of a stream.
pub open spec fn take_signed(s: Seq<bool>) -> Option<(i64, Seq<bool>)> {
    match take_varint(s) {
        None => None,
        Some((v, rest)) => Some((unzigzag_of(v), rest)),
    }
}

/// Joining streams is associative.
pub proof fn lemma_join(a: Seq<bool>, b: Seq<bool>, c: Seq<bool>)
    ensures
        (a + b) + c == a + (b + c),
{
    assert((a + b) + c =~= a + (b + c));
}

/// Reading a bit off the front of a stream that starts with it gives it back.
pub proof fn lemma_take_bit(bit: bool, rest: Seq<bool>)
    ensures
        take_bit(seq![bit] + rest) == Some((bit, rest)),
{
    assert((seq![bit] + rest).skip(1) =~= rest);
}

/// A number of `n` bits has `n` bits.
pub proof fn lemma_bits_of_len(v: nat, n: nat)
    ensures
        bits_of(v, n).len() == n,
    decreases n,
{
    if n > 0 {
        lemma_bits_of_len(v / 2, (n - 1) as nat);
    }
}

/// Writing a number in `n` bits and reading it back keeps its low `n` bits.
pub proof fn lemma_value_of_bits(v: nat, n: nat)
    ensures
        value_of(bits_of(v, n)) == v % pow2(n),
    decreases n,
{
    lemma2_to64();
    if n > 0 {
        let m = (n - 1) as nat;
        lemma_value_of_bits(v / 2, m);
        lemma_bits_of_len(v / 2, m);
        assert(bits_of(v, n).drop_last() =~= bits_of(v / 2, m));
        lemma_pow2_pos(m);
        lemma_pow2_unfold(n);
        lemma_mod_breakdown(v as int, 2, pow2(m) as int);
    }
}

/// `n` bits spell a number below `2^n`.
pub proof fn lemma_value_of_bound(s: Seq<bool>)
    ensures
        value_of(s) < pow2(s.len()),
    decreases s.len(),
{
    lemma2_to64();
    if s.len() > 0 {
        lemma_value_of_bound(s.drop_last());
        lemma_pow2_unfold(s.len());
    }
}

/// Up to 64 bits spell a number that fits in a word.
pub proof fn lemma_value_of_fits(s: Seq<bool>)
    requires
        s.len() <= 64,
    ensures
        value_of(s) <= u64::MAX,
{
    lemma_value_of_bound(s);
    lemma2_to64_rest();
    if s.len() < 64 {
        lemma_pow2_strictly_increases(s.len(), 64);
    }
}

/// Reading a number off the front of a stream that starts with it gives it back, with what
/// followed.
pub proof fn lemma_take_bits(v: u64, n: nat, rest: Seq<bool>)
    requires
        n <= 64,
        v < pow2(n),
    ensures
        take_bits(bits_of(v as nat, n) + rest, n) == Some((v, rest)),
{
    lemma_bits_of_len(v as nat, n);
    lemma_value_of_bits(v as nat, n);
    lemma_small_mod(v as nat, pow2(n));
    let s = bits_of(v as nat, n) + rest;
    assert(s.take(n as int) =~= bits_of(v as nat, n));
    assert(s.skip(n as int) =~= rest);
}

/// Reading a varint off the front of a stream that starts with it gives it back.
pub proof fn lemma_take_groups(v: nat, shift: nat, rest: Seq<bool>)
    requires
        v * pow2(shift) <= u64::MAX,
        shift <= 63,
    ensures
        take_groups(varint(v) + rest, shift) == Some((v * pow2(shift), rest)),
    decreases v,
{
    lemma2_to64();
    lemma2_to64_rest();
    lemma_pow2_pos(shift);
    let s = varint(v) + rest;
    let low = v % 128;
    let high = v / 128;
    if v < 128 {
        lemma_take_bits(v as u64, 8, rest);
        lemma_small_mod(v, 128);
    } else {
        let group = 128 + low;
        let tail = varint(high) + rest;
        assert(s =~= bits_of(group, 8) + tail);
        lemma_take_bits(group as u64, 8, tail);
        assert(group % 128 == low);
        lemma_pow2_adds(shift, 7);
        lemma_mul_is_associative(high as int, 128, pow2(shift) as int);
        lemma_mul_is_distributive_add_other_way(pow2(shift) as int, high as int * 128, low as int);
        assert(v * pow2(shift) == high * pow2(shift + 7) + low * pow2(shift)) by {
            assert(v == high * 128 + low);
            assert(high * 128 * pow2(shift) == high * (128 * pow2(shift)));
            assert(pow2(shift + 7) == pow2(shift) * 128);
        }
        assert(shift + 7 <= 63) by {
            assert(high >= 1);
            assert(1 * pow2(shift + 7) <= high * pow2(shift + 7)) by {
                lemma_mul_inequality(1, high as int, pow2(shift + 7) as int);
            }
            if shift + 7 >= 64 {
                if shift + 7 > 64 {
                    lemma_pow2_strictly_increases(64, shift + 7);
                }
            }
        }
        lemma_take_groups(high, shift + 7, rest);
    }
}

/// Reading a varint off the front of a stream that starts with it gives it back.
pub proof fn lemma_take_varint(v: u64, rest: Seq<bool>)
    ensures
        take_varint(varint(v as nat) + rest) == Some((v, rest)),
{
    lemma2_to64();
    lemma_take_groups(v as nat, 0, rest);
}

/// Casts between signed and unsigned words are two's complement.
pub proof fn lemma_twos(d: i64, v: u64)
    ensures
        d as u64 == twos(d),
        v as i64 == untwos(v),
        untwos(twos(d)) == d,
{
    assert(d < 0 ==> d as u64 == d + 0x1_0000_0000_0000_0000) by (bit_vector);
    assert(v >= 0x8000_0000_0000_0000 ==> v as i64 == v - 0x1_0000_0000_0000_0000) by (bit_vector);
}

/// The leading zeros of a word are what its number of bits leaves over.
pub proof fn lemma_leading_zeros(v: u64)
    ensures
        u64_leading_zeros(v) == 64 - bit_length(v as nat),
        bit_length(v as nat) <= 64,
    decreases v,
{
    reveal(u64_leading_zeros);
    axiom_u64_leading_zeros(v);
    if v > 0 {
        lemma_leading_zeros(v / 2);
    }
}

/// A varint takes a byte for every seven bits, and at least one.
pub proof fn lemma_varint_len(v: nat)
    ensures
        varint(v).len() == 8 * (if v == 0 { 1 } else { (bit_length(v) + 6) / 7 }),
        v <= u64::MAX ==> 8 <= varint(v).len() <= 80,
    decreases v,
{
    if v < 128 {
        lemma_bits_of_len(v, 8);
        reveal_with_fuel(bit_length, 8);
    } else {
        lemma_bits_of_len(128 + v % 128, 8);
        lemma_varint_len(v / 128);
        assert(bit_length(v) == 7 + bit_length(v / 128)) by {
            reveal_with_fuel(bit_length, 8);
        }
    }
    if v <= u64::MAX {
        lemma_leading_zeros(v as u64);
    }
}

/// A larger number takes no fewer bits.
pub proof fn lemma_bit_length_grows(low: nat, high: nat)
    requires
        low <= high,
    ensures
        bit_length(low) <= bit_length(high),
    decreases high,
{
    if low > 0 {
        lemma_bit_length_grows(low / 2, high / 2);
    }
}

/// Unfolding undoes folding.
pub proof fn lemma_unzigzag(v: i64)
    ensures
        unzigzag_of(zigzag_of(v)) == v,
{
}

/// Folding undoes unfolding, so zigzag is a bijection.
pub proof fn lemma_zigzag(v: u64)
    ensures
        zigzag_of(unzigzag_of(v)) == v,
{
}

/// Reading a zigzagged varint off the front of a stream that starts with it gives it back.
pub proof fn lemma_take_signed(v: i64, rest: Seq<bool>)
    ensures
        take_signed(varint(zigzag_of(v) as nat) + rest) == Some((v, rest)),
{
    lemma_take_varint(zigzag_of(v), rest);
    lemma_unzigzag(v);
}

/// Bits taken off the front of a stream are taken off the front of any longer stream alike.
pub proof fn lemma_extend_bits(s: Seq<bool>, n: nat, more: Seq<bool>)
    ensures
        take_bits(s, n) matches Some((v, rest)) ==> take_bits(s + more, n) == Some(
            (v, rest + more),
        ),
        take_bit(s) matches Some((bit, rest)) ==> take_bit(s + more) == Some((bit, rest + more)),
{
    if s.len() >= n {
        assert((s + more).take(n as int) =~= s.take(n as int));
        assert((s + more).skip(n as int) =~= s.skip(n as int) + more);
    }
    if s.len() > 0 {
        assert((s + more).skip(1) =~= s.skip(1) + more);
    }
}

/// A varint taken off the front of a stream is taken off the front of any longer stream alike.
pub proof fn lemma_extend_groups(s: Seq<bool>, shift: nat, more: Seq<bool>)
    ensures
        take_groups(s, shift) matches Some((v, rest)) ==> take_groups(s + more, shift) == Some(
            (v, rest + more),
        ),
    decreases 70 - shift,
{
    if shift <= 63 {
        lemma_extend_bits(s, 8, more);
        if let Some((group, rest)) = take_bits(s, 8) {
            lemma_extend_groups(rest, shift + 7, more);
        }
    }
}

/// A varint taken off the front of a stream is taken off the front of any longer stream alike.
pub proof fn lemma_extend_varint(s: Seq<bool>, more: Seq<bool>)
    ensures
        take_varint(s) matches Some((v, rest)) ==> take_varint(s + more) == Some((v, rest + more)),
        take_signed(s) matches Some((v, rest)) ==> take_signed(s + more) == Some((v, rest + more)),
{
    lemma_extend_groups(s, 0, more);
}

/// The bits of two runs of bytes, one after the other.
pub proof fn lemma_unpack_join(a: Seq<u8>, b: Seq<u8>)
    ensures
        unpack(a + b) == unpack(a) + unpack(b),
{
    let whole = unpack(a + b);
    let split = 8 * a.len();
    assert forall|i: int| 0 <= i < whole.len() implies whole[i] == (unpack(a) + unpack(b))[i] by {
        if i >= split {
            assert((i - split) / 8 == i / 8 - a.len());
            assert((i - split) % 8 == i % 8);
        }
    }
    assert(whole =~= unpack(a) + unpack(b));
}

/// Values in seven bits of two's complement, and no others, take one byte.
pub proof fn lemma_one_byte(v: i64)
    ensures
        varint(zigzag_of(v) as nat).len() == 8 <==> -64 <= v < 64,
{
    let folded = zigzag_of(v) as nat;
    if folded < 128 {
        lemma_bits_of_len(folded, 8);
    } else {
        lemma_bits_of_len(128 + folded % 128, 8);
        lemma_varint_len(folded / 128);
    }
}

} // verus!
