//! Reading and writing bit streams.

use crate::bitseq;
use crate::error::Error;
use vstd::arithmetic::mul::*;
use vstd::arithmetic::power2::*;
use vstd::bits::*;
use vstd::prelude::*;

verus! {

/// Maps a signed value to an unsigned one so that small magnitudes stay small.
pub fn zigzag(v: i64) -> (folded: u64)
    ensures
        folded == bitseq::zigzag_of(v),
{
    if v >= 0 {
        2 * (v as u64)
    } else {
        2 * ((-(v + 1)) as u64) + 1
    }
}

/// Undoes [`zigzag`].
pub fn unzigzag(v: u64) -> (unfolded: i64)
    ensures
        unfolded == bitseq::unzigzag_of(v),
{
    if v % 2 == 0 {
        (v / 2) as i64
    } else {
        -((v / 2) as i64) - 1
    }
}

/// What a read hands back: the value that the stream starts with, leaving what follows it, or
/// an error when there is none.
pub open spec fn reads<T>(
    parsed: Option<(T, Seq<bool>)>,
    result: Result<T, Error>,
    rest: Seq<bool>,
) -> bool {
    match parsed {
        Some((value, end)) => result == Ok::<T, Error>(value) && rest == end,
        None => result == Err::<T, Error>(Error::MalformedBlock),
    }
}

/// A bit stream under construction.
pub struct BitWriter {
    bytes: Vec<u8>,
    used: u32,
}

impl View for BitWriter {
    type V = Seq<bool>;

    /// The bits written so far.
    closed spec fn view(&self) -> Seq<bool> {
        bitseq::unpack(self.bytes@).take(8 * self.bytes@.len() - (8 - self.used) % 8)
    }
}

impl BitWriter {
    /// `used` bits of the last byte are taken, or all of them when it is zero, and the others
    /// are still zero.
    pub closed spec fn wf(&self) -> bool {
        &&& self.used < 8
        &&& self.used > 0 ==> self.bytes@.len() > 0
        &&& self.used > 0 ==> forall|i: int|
            self.used <= i < 8 ==> !#[trigger] bitseq::bit_at(self.bytes@.last(), i)
    }

    /// An empty stream.
    pub fn new() -> (writer: BitWriter)
        ensures
            writer.wf(),
            writer@ == Seq::<bool>::empty(),
    {
        let writer = BitWriter { bytes: Vec::new(), used: 0 };
        assert(writer@ =~= Seq::<bool>::empty());
        writer
    }

    /// An empty stream with room for `capacity` bytes.
    pub fn with_capacity(capacity: usize) -> (writer: BitWriter)
        ensures
            writer.wf(),
            writer@ == Seq::<bool>::empty(),
    {
        let writer = BitWriter { bytes: Vec::with_capacity(capacity), used: 0 };
        assert(writer@ =~= Seq::<bool>::empty());
        writer
    }

    /// Appends one bit.
    pub fn write_bit(&mut self, bit: bool)
        requires
            old(self).wf(),
        ensures
            final(self).wf(),
            final(self)@ == old(self)@.push(bit),
    {
        if self.used == 0 {
            self.bytes.push(0);
        }
        let last: usize = self.bytes.len() - 1;
        let used: u8 = self.used as u8;
        let byte: u8 = self.bytes[last];
        let mark: u8 = if bit { 0x80u8 >> used } else { 0 };
        proof {
            assert forall|i: int| used <= i < 8 implies !#[trigger] bitseq::bit_at(byte, i) by {
                if used == 0 {
                    let j = (7 - i) as u8;
                    assert((0u8 >> j) & 1u8 != 1u8) by (bit_vector);
                } else {
                    assert(byte == old(self).bytes@.last());
                }
            }
            lemma_set_bit(byte, mark, used, bit);
        }
        self.bytes[last] = byte | mark;
        self.used = (self.used + 1) % 8;
        assert(self@ =~= old(self)@.push(bit));
    }

    /// Appends the low `width` bits of `value`, most significant first.
    pub fn write_bits(&mut self, value: u64, width: u32)
        requires
            old(self).wf(),
            width <= 64,
        ensures
            final(self).wf(),
            final(self)@ == old(self)@ + bitseq::bits_of(value as nat, width as nat),
    {
        let mut left: u32 = width;
        assert(self@ =~= old(self)@ + bitseq::bits_of((value >> left) as nat, 0));
        while left > 0
            invariant
                self.wf(),
                left <= width <= 64,
                self@ == old(self)@ + bitseq::bits_of(
                    (value >> left) as nat,
                    (width - left) as nat,
                ),
            decreases left,
        {
            left = left - 1;
            let bit: bool = (value >> left) & 1 == 1;
            self.write_bit(bit);
            proof {
                let written = bitseq::bits_of((value >> left) as nat, (width - left) as nat);
                assert(((value >> left) & 1 == 1 <==> (value >> left) % 2 == 1) && (left < 63 ==> (
                value >> left) / 2 == value >> ((left + 1) as u32))) by (bit_vector)
                    requires
                        left <= 63,
                ;
                reveal_with_fuel(bitseq::bits_of, 2);
                assert(self@ =~= old(self)@ + written);
            }
        }
        assert(value >> 0 == value) by (bit_vector);
    }

    /// Appends a varint.
    pub fn write_varint(&mut self, value: u64)
        requires
            old(self).wf(),
        ensures
            final(self).wf(),
            final(self)@ == old(self)@ + bitseq::varint(value as nat),
    {
        let mut rest: u64 = value;
        while rest >= 128
            invariant
                self.wf(),
                self@ + bitseq::varint(rest as nat) == old(self)@ + bitseq::varint(value as nat),
            decreases rest,
        {
            let ghost before = self@;
            self.write_bits(128 + rest % 128, 8);
            proof {
                let tail = bitseq::varint((rest / 128) as nat);
                assert(self@ + tail =~= before + bitseq::varint(rest as nat));
            }
            rest = rest / 128;
        }
        self.write_bits(rest, 8);
    }

    /// The bytes of the stream, the last of them filled up with zero bits.
    pub fn finish(self) -> (bytes: Vec<u8>)
        requires
            self.wf(),
        ensures
            bitseq::unpack(bytes@) == bitseq::padded(self@),
    {
        proof {
            let all = bitseq::unpack(self.bytes@);
            assert(all =~= bitseq::padded(self@)) by {
                assert forall|i: int| self@.len() <= i < all.len() implies !all[i] by {
                    assert(self.bytes@[i / 8] == self.bytes@.last());
                    assert(!bitseq::bit_at(self.bytes@.last(), i % 8));
                }
            }
        }
        self.bytes
    }
}

/// A place in a stream of bits.
pub struct BitReader<'a> {
    bytes: &'a [u8],
    byte: usize,
    bit: u32,
}

impl<'a> View for BitReader<'a> {
    type V = Seq<bool>;

    /// The bits still to be read.
    closed spec fn view(&self) -> Seq<bool> {
        bitseq::unpack(self.bytes@).skip(8 * self.byte + self.bit)
    }
}

impl<'a> BitReader<'a> {
    /// The place is inside the stream or at its end.
    pub closed spec fn wf(&self) -> bool {
        &&& self.bit < 8
        &&& self.byte <= self.bytes@.len()
        &&& self.byte == self.bytes@.len() ==> self.bit == 0
    }

    /// The start of the stream that `bytes` hold.
    pub fn new(bytes: &'a [u8]) -> (reader: BitReader<'a>)
        ensures
            reader.wf(),
            reader@ == bitseq::unpack(bytes@),
    {
        let reader = BitReader { bytes, byte: 0, bit: 0 };
        assert(reader@ =~= bitseq::unpack(bytes@));
        reader
    }

    /// Reads one bit.
    pub fn read_bit(&mut self) -> (result: Result<bool, Error>)
        requires
            old(self).wf(),
        ensures
            final(self).wf(),
            reads(bitseq::take_bit(old(self)@), result, final(self)@),
    {
        if self.byte == self.bytes.len() {
            return Err(Error::MalformedBlock);
        }
        let byte: u8 = self.bytes[self.byte];
        let offset: u8 = 7 - self.bit as u8;
        let bit: bool = (byte >> offset) & 1 == 1;
        assert(old(self)@[0] == bitseq::bit_at(byte, self.bit as int));
        if self.bit == 7 {
            self.byte = self.byte + 1;
            self.bit = 0;
        } else {
            self.bit = self.bit + 1;
        }
        assert(self@ =~= old(self)@.skip(1));
        Ok(bit)
    }

    /// Reads a number of `width` bits, most significant first.
    pub fn read_bits(&mut self, width: u32) -> (result: Result<u64, Error>)
        requires
            old(self).wf(),
            width <= 64,
        ensures
            final(self).wf(),
            reads(bitseq::take_bits(old(self)@, width as nat), result, final(self)@),
            result matches Ok(value) ==> value < pow2(width as nat),
    {
        let ghost start = self@;
        let mut value: u64 = 0;
        let mut done: u32 = 0;
        assert(start.skip(0) =~= start);
        while done < width
            invariant
                self.wf(),
                start == old(self)@,
                done <= width <= 64,
                done <= start.len(),
                self@ == start.skip(done as int),
                value == bitseq::value_of(start.take(done as int)),
            decreases width - done,
        {
            match self.read_bit() {
                Err(e) => {
                    return Err(e);
                },
                Ok(bit) => {
                    proof {
                        let head = start.take(done + 1);
                        assert(head.drop_last() =~= start.take(done as int));
                        assert(head.last() == bit);
                        bitseq::lemma_value_of_fits(head);
                        assert(start.skip(done as int).skip(1) =~= start.skip(done + 1));
                    }
                    value = 2 * value + (if bit { 1u64 } else { 0u64 });
                },
            }
            done = done + 1;
        }
        proof {
            bitseq::lemma_value_of_bound(start.take(width as int));
        }
        Ok(value)
    }

    /// Reads a varint.
    pub fn read_varint(&mut self) -> (result: Result<u64, Error>)
        requires
            old(self).wf(),
        ensures
            final(self).wf(),
            reads(bitseq::take_varint(old(self)@), result, final(self)@),
    {
        let ghost start = self@;
        let mut value: u64 = 0;
        let mut shift: u32 = 0;
        proof {
            lemma2_to64();
        }
        while shift <= 63
            invariant
                self.wf(),
                start == old(self)@,
                shift <= 70,
                match bitseq::take_groups(self@, shift as nat) {
                    None => bitseq::take_groups(start, 0) is None,
                    Some((higher, rest)) => bitseq::take_groups(start, 0) == Some(
                        (value as nat + higher, rest),
                    ),
                },
                value < pow2(shift as nat),
            decreases 70 - shift,
        {
            let ghost here = self@;
            let group: u64 = match self.read_bits(8) {
                Err(e) => {
                    return Err(e);
                },
                Ok(group) => group,
            };
            let low: u64 = group % 128;
            proof {
                lemma_weight(value, low, shift);
            }
            if low > u64::MAX >> shift {
                return Err(Error::MalformedBlock);
            }
            let weighted: u64 = low << shift;
            if group < 128 {
                return Ok(value + weighted);
            }
            assert(bitseq::take_groups(self@, (shift + 7) as nat) is None ==> bitseq::take_groups(
                here,
                shift as nat,
            ) is None);
            value = value + weighted;
            shift = shift + 7;
        }
        Err(Error::MalformedBlock)
    }

    /// Reads a zigzagged varint.
    pub fn read_signed(&mut self) -> (result: Result<i64, Error>)
        requires
            old(self).wf(),
        ensures
            final(self).wf(),
            reads(bitseq::take_signed(old(self)@), result, final(self)@),
    {
        match self.read_varint() {
            Err(e) => Err(e),
            Ok(v) => Ok(unzigzag(v)),
        }
    }
}

/// Setting the first free bit of a byte leaves the other bits alone.
proof fn lemma_set_bit(byte: u8, mark: u8, used: u8, bit: bool)
    requires
        used < 8,
        !bitseq::bit_at(byte, used as int),
        mark == (if bit { 0x80u8 >> used } else { 0 }),
    ensures
        forall|i: int|
            0 <= i < 8 ==> #[trigger] bitseq::bit_at(byte | mark, i) == (if i == used {
                bit
            } else {
                bitseq::bit_at(byte, i)
            }),
{
    assert forall|i: int| 0 <= i < 8 implies #[trigger] bitseq::bit_at(byte | mark, i) == (if i
        == used {
        bit
    } else {
        bitseq::bit_at(byte, i)
    }) by {
        let j = (7 - i) as u8;
        let u = (7 - used) as u8;
        assert(((byte | mark) >> j) & 1u8 == 1u8 <==> (if j == u {
            bit
        } else {
            (byte >> j) & 1u8 == 1u8
        })) by (bit_vector)
            requires
                j < 8,
                used < 8,
                u == 7 - used,
                (byte >> u) & 1u8 != 1u8,
                mark == (if bit { 0x80u8 >> used } else { 0 }),
        ;
    }
}

/// When seven more bits fit above a value of `shift` bits, and what they amount to there.
proof fn lemma_weight(value: u64, low: u64, shift: u32)
    requires
        low < 128,
        shift <= 63,
        value < pow2(shift as nat),
    ensures
        low > u64::MAX >> shift <==> low * pow2(shift as nat) > u64::MAX,
        low <= u64::MAX >> shift ==> {
            &&& low << shift == low * pow2(shift as nat)
            &&& value + (low << shift) <= u64::MAX
            &&& value + (low << shift) < pow2((shift + 7) as nat)
        },
{
    let unit = pow2(shift as nat) as int;
    lemma_u64_mul_pow2_le_max_iff_max_shr(low, shift as u64, u64::MAX);
    assert(u64::MAX >> shift == u64::MAX >> (shift as u64) && low << shift == low << (
    shift as u64)) by (bit_vector);
    if low <= u64::MAX >> shift {
        let room = pow2((64 - shift) as nat) as int;
        lemma_u64_shl_is_mul(low, shift as u64);
        lemma2_to64();
        lemma2_to64_rest();
        lemma_pow2_adds(shift as nat, (64 - shift) as nat);
        lemma_pow2_adds(shift as nat, 7);
        assert(low + 1 <= room) by {
            if low >= room {
                lemma_mul_inequality(room, low as int, unit);
                lemma_mul_is_commutative(room, unit);
            }
        }
        lemma_mul_inequality(low + 1, room, unit);
        lemma_mul_inequality(low + 1, 128, unit);
        lemma_mul_is_distributive_add_other_way(unit, low as int, 1);
        lemma_mul_is_commutative(room, unit);
    }
}

} // verus!
