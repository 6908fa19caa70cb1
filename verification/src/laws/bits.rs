//! Bits, bytes, varints and zigzag.

use crate::bitseq;
use crate::codec;
use vstd::arithmetic::div_mod::*;
use vstd::arithmetic::mul::*;
use vstd::arithmetic::power2::*;
use vstd::bits::*;
use vstd::prelude::*;

verus! {

/// Numbers are written most significant bit first: bit `i` of `n` is the one that weighs
/// `2^(n-1-i)`.
pub proof fn law_bit(v: nat, n: nat, i: int)
    requires
        0 <= i < n,
    ensures
        bitseq::bits_of(v, n).len() == n,
        bitseq::bits_of(v, n)[i] == ((v / pow2((n - 1 - i) as nat)) % 2 == 1),
    decreases n,
{
    bitseq::lemma_bits_of_len(v, n);
    bitseq::lemma_bits_of_len(v / 2, (n - 1) as nat);
    lemma2_to64();
    if i < n - 1 {
        let k = (n - 2 - i) as nat;
        law_bit(v / 2, (n - 1) as nat, i);
        lemma_pow2_pos(k);
        lemma_pow2_unfold((k + 1) as nat);
        lemma_div_denominator(v as int, 2, pow2(k) as int);
        assert(bitseq::bits_of(v, n)[i] == bitseq::bits_of(v / 2, (n - 1) as nat)[i]);
        assert((v / 2) / pow2(k) == v / pow2(k + 1));
        assert((n - 1 - i) as nat == k + 1);
    } else {
        assert(v / pow2(0) == v);
    }
}

/// Only the low `n` bits of a number are written in `n` bits.
pub proof fn law_low_bits(v: nat, w: nat, n: nat)
    requires
        v % pow2(n) == w % pow2(n),
    ensures
        bitseq::bits_of(v, n) == bitseq::bits_of(w, n),
    decreases n,
{
    if n > 0 {
        let m = (n - 1) as nat;
        lemma_pow2_pos(m);
        lemma_pow2_unfold(n);
        lemma_mod_breakdown(v as int, 2, pow2(m) as int);
        lemma_mod_breakdown(w as int, 2, pow2(m) as int);
        law_low_bits(v / 2, w / 2, m);
    }
}

/// What two runs of bits spell together: the first weighs what the second leaves room for.
pub proof fn law_value_join(a: Seq<bool>, b: Seq<bool>)
    ensures
        bitseq::value_of(a + b) == bitseq::value_of(a) * pow2(b.len()) + bitseq::value_of(b),
        b.len() == 1 ==> bitseq::value_of(b) == (if b[0] { 1nat } else { 0nat }),
        b.len() == 0 ==> bitseq::value_of(b) == 0,
    decreases b.len(),
{
    lemma2_to64();
    if b.len() == 0 {
        assert(a + b =~= a);
    } else {
        law_value_join(a, b.drop_last());
        assert((a + b).drop_last() =~= a + b.drop_last());
        lemma_pow2_unfold(b.len());
        let p = pow2((b.len() - 1) as nat) as int;
        let v = bitseq::value_of(a) as int;
        assert(v * (2 * p) == 2 * (v * p)) by {
            lemma_mul_is_associative(v, 2, p);
            lemma_mul_is_associative(2, v, p);
            lemma_mul_is_commutative(2, v);
        }
        if b.len() == 1 {
            assert(b.drop_last().len() == 0);
        }
    }
}

/// Bit `i` of a byte is the one that weighs `2^(7-i)`.
proof fn lemma_bit_at(byte: u8, i: int)
    requires
        0 <= i < 8,
    ensures
        bitseq::bit_at(byte, i) == ((byte as nat / pow2((7 - i) as nat)) % 2 == 1),
{
    let shift = (7 - i) as u8;
    let moved = byte >> shift;
    lemma_u8_shr_is_div(byte, shift);
    assert(moved & 1u8 == moved % 2) by (bit_vector);
}

/// The bits of a run of bytes are those of each byte in turn, most significant first.
pub proof fn law_unpack(bytes: Seq<u8>, k: int, i: int)
    requires
        0 <= k < bytes.len(),
        0 <= i < 8,
    ensures
        bitseq::unpack(bytes).len() == 8 * bytes.len(),
        bitseq::unpack(bytes)[8 * k + i] == ((bytes[k] as nat / pow2((7 - i) as nat)) % 2 == 1),
{
    lemma_bit_at(bytes[k], i);
    assert((8 * k + i) / 8 == k && (8 * k + i) % 8 == i);
}

/// A stream is filled up with zero bits, and with fewer than eight of them, to a whole number of
/// bytes.
pub proof fn law_padded(s: Seq<bool>, i: int)
    ensures
        bitseq::padded(s).len() % 8 == 0,
        s.len() <= bitseq::padded(s).len() < s.len() + 8,
        0 <= i < s.len() ==> bitseq::padded(s)[i] == s[i],
        s.len() <= i < bitseq::padded(s).len() ==> !bitseq::padded(s)[i],
{
}

/// A block is its tag, then the stream eight bits to a byte, most significant first, then zero
/// bits up to a whole byte and no further.
pub proof fn law_block(block: Seq<u8>, tag: u8, stream: Seq<bool>, i: int)
    requires
        codec::is_block(block, tag, stream),
        0 <= i < 8 * (block.len() - 1),
    ensures
        block[0] == tag,
        stream.len() <= 8 * (block.len() - 1) < stream.len() + 8,
        ((block[1 + i / 8] as nat / pow2((7 - i % 8) as nat)) % 2 == 1) == (if i < stream.len() {
            stream[i]
        } else {
            false
        }),
{
    let body = block.skip(1);
    lemma_bit_at(body[i / 8], i % 8);
    assert(bitseq::unpack(body)[i] == bitseq::padded(stream)[i]);
    assert(bitseq::unpack(body).len() == 8 * body.len());
}

/// A block's length follows from its stream's.
pub proof fn law_block_len(block: Seq<u8>, tag: u8, stream: Seq<bool>)
    requires
        codec::is_block(block, tag, stream),
    ensures
        block.len() == 1 + (stream.len() + 7) / 8,
{
    assert(bitseq::unpack(block.skip(1)).len() == 8 * block.skip(1).len());
    assert(bitseq::padded(stream).len() == 8 * block.skip(1).len());
}

/// Bits read off the front of a stream are the number that was written there, and there is none
/// when the stream is shorter.
pub proof fn law_read_bits(v: u64, n: nat, rest: Seq<bool>, short: Seq<bool>)
    requires
        n <= 64,
        v < pow2(n),
        short.len() < n,
    ensures
        bitseq::take_bits(bitseq::bits_of(v as nat, n) + rest, n) == Some((v, rest)),
        bitseq::take_bits(short, n) is None,
        bitseq::take_bit(seq![true] + rest) == Some((true, rest)),
        bitseq::take_bit(seq![false] + rest) == Some((false, rest)),
        bitseq::take_bit(Seq::<bool>::empty()) is None,
{
    bitseq::lemma_take_bits(v, n, rest);
    bitseq::lemma_take_bit(true, rest);
    bitseq::lemma_take_bit(false, rest);
}

/// The eight bits of a byte, one by one.
proof fn lemma_eight(x: nat)
    ensures
        bitseq::bits_of(x, 8) == seq![
            x / 128 % 2 == 1,
            x / 64 % 2 == 1,
            x / 32 % 2 == 1,
            x / 16 % 2 == 1,
            x / 8 % 2 == 1,
            x / 4 % 2 == 1,
            x / 2 % 2 == 1,
            x % 2 == 1,
        ],
        bitseq::bits_of(x, 7) == seq![
            x / 64 % 2 == 1,
            x / 32 % 2 == 1,
            x / 16 % 2 == 1,
            x / 8 % 2 == 1,
            x / 4 % 2 == 1,
            x / 2 % 2 == 1,
            x % 2 == 1,
        ],
{
    assert forall|n: nat, i: int| n <= 8 && 0 <= i < n implies #[trigger] bitseq::bits_of(x, n)[i]
        == ((x / pow2((n - 1 - i) as nat)) % 2 == 1) by {
        law_bit(x, n, i);
    }
    bitseq::lemma_bits_of_len(x, 8);
    bitseq::lemma_bits_of_len(x, 7);
    lemma2_to64();
    assert(bitseq::bits_of(x, 8) =~= seq![
        x / 128 % 2 == 1,
        x / 64 % 2 == 1,
        x / 32 % 2 == 1,
        x / 16 % 2 == 1,
        x / 8 % 2 == 1,
        x / 4 % 2 == 1,
        x / 2 % 2 == 1,
        x % 2 == 1,
    ]);
    assert(bitseq::bits_of(x, 7) =~= seq![
        x / 64 % 2 == 1,
        x / 32 % 2 == 1,
        x / 16 % 2 == 1,
        x / 8 % 2 == 1,
        x / 4 % 2 == 1,
        x / 2 % 2 == 1,
        x % 2 == 1,
    ]);
}

/// A varint is a run of whole bytes: byte `j` has seven bits of the number, those that weigh
/// `2^(7j)` and up, behind a bit that says whether another byte follows. There are as many bytes
/// as the number needs, and one for zero.
pub proof fn law_varint(v: nat, j: int)
    requires
        0 <= j < bitseq::varint(v).len() as int / 8,
    ensures
        bitseq::varint(v).len() % 8 == 0,
        bitseq::varint(v)[8 * j] == (j + 1 < bitseq::varint(v).len() as int / 8),
        bitseq::varint(v).subrange(8 * j + 1, 8 * j + 8) == bitseq::bits_of(
            (v / pow2((7 * j) as nat)) % 128,
            7,
        ),
        bitseq::varint(v).len() == 8 <==> v < 128,
        j + 1 < bitseq::varint(v).len() as int / 8 <==> v >= pow2((7 * j + 7) as nat),
    decreases v,
{
    let s = bitseq::varint(v);
    lemma2_to64();
    bitseq::lemma_varint_len(v);
    assert(v / pow2(0) == v);
    if v < 128 {
        lemma_eight(v);
        assert(j == 0);
        assert(s.subrange(1, 8) =~= bitseq::bits_of(v % 128, 7));
    } else {
        let low = v % 128;
        let high = v / 128;
        let tail = bitseq::varint(high);
        lemma_eight(128 + low);
        lemma_eight(low);
        bitseq::lemma_bits_of_len(128 + low, 8);
        bitseq::lemma_varint_len(high);
        assert(tail.len() >= 8);
        assert(bitseq::varint(high).len() % 8 == 0);
        if j == 0 {
            assert(s.subrange(1, 8) =~= bitseq::bits_of(low, 7));
        } else {
            law_varint(high, j - 1);
            assert(s.subrange(8 * j + 1, 8 * j + 8) =~= tail.subrange(
                8 * (j - 1) + 1,
                8 * (j - 1) + 8,
            ));
            let k = (7 * (j - 1)) as nat;
            lemma_pow2_pos(k);
            lemma_pow2_adds(7, k);
            lemma_div_denominator(v as int, 128, pow2(k) as int);
            assert(high / pow2(k) == v / pow2(k + 7));
            assert((7 * j) as nat == k + 7);
            lemma_pow2_pos(k + 7);
            lemma_pow2_adds(7, k + 7);
            let p = pow2(k + 7) as int;
            assert(high >= p <==> v >= 128 * p) by {
                lemma_fundamental_div_mod(v as int, 128);
            }
        }
    }
}

/// A varint is never empty, and is one byte for the numbers that seven bits hold.
pub proof fn law_varint_len(v: nat)
    ensures
        bitseq::varint(v).len() >= 8,
        bitseq::varint(v).len() == 8 <==> v < 128,
{
    bitseq::lemma_varint_len(v);
    if v < 128 {
        bitseq::lemma_bits_of_len(v, 8);
    } else {
        bitseq::lemma_bits_of_len(128 + v % 128, 8);
        bitseq::lemma_varint_len(v / 128);
    }
}

/// A varint is read back as the number that was written, whatever follows it.
pub proof fn law_read_varint(v: u64, n: i64, rest: Seq<bool>)
    ensures
        bitseq::take_varint(bitseq::varint(v as nat) + rest) == Some((v, rest)),
        bitseq::take_signed(bitseq::varint(bitseq::zigzag_of(n) as nat) + rest) == Some((n, rest)),
{
    bitseq::lemma_take_varint(v, rest);
    bitseq::lemma_take_signed(n, rest);
}

/// Reading the bytes of a varint, the first of them weighing `2^shift`: each adds its low seven
/// bits at its weight, and the high bit says whether another follows, which weighs seven bits
/// more. It is an error if a byte's bits do not fit in 64, or weigh `2^64` or more.
pub proof fn law_read_group(byte: u64, shift: nat, rest: Seq<bool>)
    requires
        byte < 256,
    ensures
        shift > 63 ==> bitseq::take_groups(rest, shift) is None,
        ({
            let s = bitseq::bits_of(byte as nat, 8) + rest;
            let bits = (byte % 128) as nat * pow2(shift);
            shift <= 63 ==> bitseq::take_groups(s, shift) == (if bits > 0xffff_ffff_ffff_ffff {
                None
            } else if byte < 128 {
                Some((bits, rest))
            } else {
                match bitseq::take_groups(rest, shift + 7) {
                    None => None,
                    Some((more, rest)) => Some((bits + more, rest)),
                }
            })
        }),
        ({
            let s = bitseq::bits_of(byte as nat, 8) + rest;
            bitseq::take_varint(s) == (match bitseq::take_groups(s, 0) {
                None => None,
                Some((v, rest)) => Some((v as u64, rest)),
            })
        }),
{
    lemma2_to64();
    bitseq::lemma_take_bits(byte, 8, rest);
}

/// Folding and unfolding undo each other both ways.
pub proof fn law_unzigzag(v: u64)
    ensures
        bitseq::zigzag_of(bitseq::unzigzag_of(v)) == v,
{
    bitseq::lemma_zigzag(v);
}

/// Zigzag counts outwards from zero: zero is nought, each positive number follows its negative,
/// and each step away from zero moves on by two.
pub proof fn law_zigzag(v: i64)
    ensures
        bitseq::zigzag_of(0) == 0,
        v > 0 ==> bitseq::zigzag_of(v) == bitseq::zigzag_of((-v) as i64) + 1,
        0 <= v < i64::MAX ==> bitseq::zigzag_of((v + 1) as i64) == bitseq::zigzag_of(v) + 2,
        i64::MIN < v < 0 ==> bitseq::zigzag_of((v - 1) as i64) == bitseq::zigzag_of(v) + 2,
        bitseq::unzigzag_of(bitseq::zigzag_of(v)) == v,
{
}

} // verus!
