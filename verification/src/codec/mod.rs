//! The block codecs.
//!
//! A block is one byte of tag followed by a bit stream. The tag says which codec wrote the
//! stream, which is what lets one codec fall back on another.

use crate::bits::BitWriter;
use crate::bitseq;
use crate::error::Error;
use crate::point::Point;
use vstd::prelude::*;

pub mod alp;
pub mod chimp;
pub mod chimp128;
pub mod decimal;
pub mod dod;
pub mod elf;
pub mod gorilla;
pub mod packed;

pub use crate::codec::alp::Alp;
pub use crate::codec::chimp::Chimp;
pub use crate::codec::chimp128::Chimp128;
pub use crate::codec::decimal::Decimal;
pub use crate::codec::dod::Dod;
pub use crate::codec::elf::Elf;
pub use crate::codec::gorilla::Gorilla;
pub use crate::codec::packed::Packed;

verus! {

/// The tag of a Gorilla block.
pub const TAG_GORILLA: u8 = 0x00;

/// The tag of a decimal block.
pub const TAG_DECIMAL: u8 = 0x01;

/// The tag of a Chimp block.
pub const TAG_CHIMP: u8 = 0x02;

/// The tag of a Chimp128 block.
pub const TAG_CHIMP128: u8 = 0x03;

/// The tag of an Elf block.
pub const TAG_ELF: u8 = 0x04;

/// The tag of an ALP block.
pub const TAG_ALP: u8 = 0x05;

/// The tag of a packed block.
pub const TAG_PACKED: u8 = 0x06;

/// Whether `block` is a tag followed by a stream, filled up with zero bits to whole bytes.
pub open spec fn is_block(block: Seq<u8>, tag: u8, stream: Seq<bool>) -> bool {
    &&& block.len() > 0
    &&& block[0] == tag
    &&& bitseq::unpack(block.skip(1)) == bitseq::padded(stream)
}

/// When the points were taken.
pub open spec fn timestamps(points: Seq<Point>) -> Seq<i64> {
    Seq::new(points.len(), |i: int| points[i].timestamp)
}

/// What decoding hands back: the points that a stream stands for, or an error when it stands
/// for none.
pub open spec fn decodes(parsed: Option<Seq<Point>>, result: Result<Vec<Point>, Error>) -> bool {
    match parsed {
        Some(points) => result matches Ok(decoded) && decoded@ == points,
        None => result == Err::<Vec<Point>, Error>(Error::MalformedBlock),
    }
}

/// Whether a codec writes blocks with this tag.
pub open spec fn is_tag(tag: u8) -> bool {
    tag <= TAG_PACKED
}

/// Takes the points of a block with this tag off the front of a stream.
pub open spec fn taken(tag: u8, s: Seq<bool>) -> Option<(Seq<Point>, Seq<bool>)> {
    if tag == TAG_GORILLA {
        gorilla::taken(s)
    } else if tag == TAG_DECIMAL {
        decimal::taken(s)
    } else if tag == TAG_CHIMP {
        chimp::taken(s)
    } else if tag == TAG_CHIMP128 {
        chimp128::taken(s)
    } else if tag == TAG_ELF {
        elf::taken(s)
    } else if tag == TAG_ALP {
        alp::taken(s)
    } else if tag == TAG_PACKED {
        packed::taken(s)
    } else {
        None
    }
}

/// The points that a block stands for.
pub open spec fn decoded(block: Seq<u8>) -> Result<Seq<Point>, Error> {
    if block.len() == 0 {
        Err(Error::MalformedBlock)
    } else if !is_tag(block[0]) {
        Err(Error::UnknownCodec(block[0]))
    } else {
        match taken(block[0], bitseq::unpack(block.skip(1))) {
            Some((points, rest)) => Ok(points),
            None => Err(Error::MalformedBlock),
        }
    }
}

/// Whether the points of a block end in its last byte: less than a byte is left over.
pub open spec fn fills(block: Seq<u8>) -> bool {
    taken(block[0], bitseq::unpack(block.skip(1))) matches Some((_, rest)) && rest.len() < 8
}

/// A way of writing points into a block.
pub trait Codec {
    /// The tag of the block that holds `points`.
    spec fn tag_of(&self, points: Seq<Point>) -> u8;

    /// The stream of the block that holds `points`.
    spec fn stream_of(&self, points: Seq<Point>) -> Seq<bool>;

    /// What the codec is called.
    spec fn called(&self) -> Seq<char>;

    /// What the codec is called.
    fn name(&self) -> (name: &'static str)
        ensures
            name@ == self.called(),
    ;

    /// The block that holds `points`, of which there can be at most `u32::MAX`. Decoding it
    /// gives them back exactly.
    fn encode(&self, points: &[Point]) -> (result: Result<Vec<u8>, Error>)
        ensures
            points@.len() > u32::MAX ==> result == Err::<Vec<u8>, Error>(
                Error::TooManyPoints(points.len()),
            ),
            points@.len() <= u32::MAX ==> (result matches Ok(block) && is_block(
                block@,
                self.tag_of(points@),
                self.stream_of(points@),
            ) && decoded(block@) == Ok::<Seq<Point>, Error>(points@)),
    ;
}

/// Decodes a block, whichever codec wrote it.
pub fn decode(block: &[u8]) -> (result: Result<Vec<Point>, Error>)
    ensures
        match decoded(block@) {
            Ok(points) => result matches Ok(read) && read@ == points,
            Err(e) => result == Err::<Vec<Point>, Error>(e),
        },
{
    if block.len() == 0 {
        return Err(Error::MalformedBlock);
    }
    let tag: u8 = block[0];
    let body: &[u8] = &block[1..block.len()];
    assert(body@ =~= block@.skip(1));
    match tag {
        TAG_GORILLA => gorilla::decode(body),
        TAG_DECIMAL => decimal::decode(body),
        TAG_CHIMP => chimp::decode(body),
        TAG_CHIMP128 => chimp128::decode(body),
        TAG_ELF => elf::decode(body),
        TAG_ALP => alp::decode(body),
        TAG_PACKED => packed::decode(body),
        _ => Err(Error::UnknownCodec(tag)),
    }
}

/// Gorilla loses nothing: decoding the block of any points gives back those points.
pub proof fn lemma_gorilla_lossless(points: Seq<Point>, block: Seq<u8>)
    requires
        points.len() <= u32::MAX,
        is_block(block, TAG_GORILLA, gorilla::stream(points)),
    ensures
        decoded(block) == Ok::<Seq<Point>, Error>(points),
        fills(block),
{
    let stream = gorilla::stream(points);
    gorilla::lemma_roundtrip(points, bitseq::zeros(((8 - stream.len() % 8) % 8) as nat));
}

/// The decimal codec loses nothing: decoding the block of any points gives back those points.
pub proof fn lemma_decimal_lossless(points: Seq<Point>, block: Seq<u8>)
    requires
        points.len() <= u32::MAX,
        is_block(block, Decimal.tag_of(points), Decimal.stream_of(points)),
    ensures
        decoded(block) == Ok::<Seq<Point>, Error>(points),
        fills(block),
{
    match decimal::scale_from(points, 0) {
        None => lemma_gorilla_lossless(points, block),
        Some(e) => {
            let stream = decimal::stream(points, e);
            decimal::lemma_scale(points, 0);
            decimal::lemma_roundtrip(
                points,
                e,
                bitseq::zeros(((8 - stream.len() % 8) % 8) as nat),
            );
        },
    }
}

/// Chimp loses nothing: decoding the block of any points gives back those points.
pub proof fn lemma_chimp_lossless(points: Seq<Point>, block: Seq<u8>)
    requires
        points.len() <= u32::MAX,
        is_block(block, TAG_CHIMP, chimp::stream(points)),
    ensures
        decoded(block) == Ok::<Seq<Point>, Error>(points),
        fills(block),
{
    let stream = chimp::stream(points);
    chimp::lemma_roundtrip(points, bitseq::zeros(((8 - stream.len() % 8) % 8) as nat));
}

/// Chimp128 loses nothing: decoding the block of any points gives back those points.
pub proof fn lemma_chimp128_lossless(points: Seq<Point>, block: Seq<u8>)
    requires
        points.len() <= u32::MAX,
        is_block(block, TAG_CHIMP128, chimp128::stream(points)),
    ensures
        decoded(block) == Ok::<Seq<Point>, Error>(points),
        fills(block),
{
    let stream = chimp128::stream(points);
    chimp128::lemma_roundtrip(points, bitseq::zeros(((8 - stream.len() % 8) % 8) as nat));
}

/// Elf loses nothing: decoding the block of any points gives back those points.
pub proof fn lemma_elf_lossless(points: Seq<Point>, block: Seq<u8>)
    requires
        points.len() <= u32::MAX,
        is_block(block, Elf.tag_of(points), Elf.stream_of(points)),
    ensures
        decoded(block) == Ok::<Seq<Point>, Error>(points),
        fills(block),
{
    match decimal::scale_from(points, 0) {
        None => lemma_chimp_lossless(points, block),
        Some(places) => {
            let stream = elf::stream(points, places);
            decimal::lemma_scale(points, 0);
            elf::lemma_roundtrip(
                points,
                places,
                bitseq::zeros(((8 - stream.len() % 8) % 8) as nat),
            );
        },
    }
}

/// ALP loses nothing: decoding the block of any points gives back those points.
pub proof fn lemma_alp_lossless(points: Seq<Point>, block: Seq<u8>)
    requires
        points.len() <= u32::MAX,
        is_block(block, Alp.tag_of(points), Alp.stream_of(points)),
    ensures
        decoded(block) == Ok::<Seq<Point>, Error>(points),
        fills(block),
{
    let e = alp::exponent_of(points);
    if alp::falls_back(points, e) {
        lemma_gorilla_lossless(points, block);
    } else {
        let stream = alp::stream(points, e);
        alp::lemma_exponent(points);
        alp::lemma_roundtrip(points, e, bitseq::zeros(((8 - stream.len() % 8) % 8) as nat));
    }
}

/// The packed codec loses nothing: decoding the block of any points gives back those points.
pub proof fn lemma_packed_lossless(points: Seq<Point>, block: Seq<u8>)
    requires
        points.len() <= u32::MAX,
        is_block(block, Packed.tag_of(points), Packed.stream_of(points)),
    ensures
        decoded(block) == Ok::<Seq<Point>, Error>(points),
        fills(block),
{
    let e = packed::exponent_of(points);
    if alp::falls_back(points, e) {
        lemma_gorilla_lossless(points, block);
    } else {
        let stream = packed::stream(points, e);
        packed::lemma_exponent(points);
        packed::lemma_roundtrip(points, e, bitseq::zeros(((8 - stream.len() % 8) % 8) as nat));
    }
}

/// Whether a block can hold `count` points.
pub fn check_count(count: usize) -> (result: Result<(), Error>)
    ensures
        count > u32::MAX ==> result == Err::<(), Error>(Error::TooManyPoints(count)),
        count <= u32::MAX ==> result is Ok,
{
    if count > u32::MAX as usize {
        Err(Error::TooManyPoints(count))
    } else {
        Ok(())
    }
}

/// Puts a tag in front of a finished stream.
pub(crate) fn seal(tag: u8, w: BitWriter) -> (block: Vec<u8>)
    requires
        w.wf(),
    ensures
        is_block(block@, tag, w@),
{
    let mut block: Vec<u8> = vec![tag];
    let mut bytes: Vec<u8> = w.finish();
    let ghost stream = bytes@;
    block.append(&mut bytes);
    assert(block@.skip(1) =~= stream);
    block
}

/// A byte is determined by its bits.
proof fn lemma_byte(a: u8, b: u8)
    requires
        forall|i: int| 0 <= i < 8 ==> bitseq::bit_at(a, i) == bitseq::bit_at(b, i),
    ensures
        a == b,
{
    assert(bitseq::bit_at(a, 0) == bitseq::bit_at(b, 0));
    assert(bitseq::bit_at(a, 1) == bitseq::bit_at(b, 1));
    assert(bitseq::bit_at(a, 2) == bitseq::bit_at(b, 2));
    assert(bitseq::bit_at(a, 3) == bitseq::bit_at(b, 3));
    assert(bitseq::bit_at(a, 4) == bitseq::bit_at(b, 4));
    assert(bitseq::bit_at(a, 5) == bitseq::bit_at(b, 5));
    assert(bitseq::bit_at(a, 6) == bitseq::bit_at(b, 6));
    assert(bitseq::bit_at(a, 7) == bitseq::bit_at(b, 7));
    assert(a == b) by (bit_vector)
        requires
            ((a >> 7) & 1u8 == 1u8) == ((b >> 7) & 1u8 == 1u8),
            ((a >> 6) & 1u8 == 1u8) == ((b >> 6) & 1u8 == 1u8),
            ((a >> 5) & 1u8 == 1u8) == ((b >> 5) & 1u8 == 1u8),
            ((a >> 4) & 1u8 == 1u8) == ((b >> 4) & 1u8 == 1u8),
            ((a >> 3) & 1u8 == 1u8) == ((b >> 3) & 1u8 == 1u8),
            ((a >> 2) & 1u8 == 1u8) == ((b >> 2) & 1u8 == 1u8),
            ((a >> 1) & 1u8 == 1u8) == ((b >> 1) & 1u8 == 1u8),
            ((a >> 0) & 1u8 == 1u8) == ((b >> 0) & 1u8 == 1u8),
    ;
}

/// A tag and a stream make one block and no other, byte for byte.
pub proof fn lemma_block_unique(a: Seq<u8>, b: Seq<u8>, tag: u8, stream: Seq<bool>)
    requires
        is_block(a, tag, stream),
        is_block(b, tag, stream),
    ensures
        a == b,
{
    let left = a.skip(1);
    let right = b.skip(1);
    assert(bitseq::unpack(left) == bitseq::unpack(right));
    assert(bitseq::unpack(left).len() == 8 * left.len());
    assert(bitseq::unpack(right).len() == 8 * right.len());
    assert forall|k: int| 0 <= k < left.len() implies left[k] == right[k] by {
        assert forall|i: int| 0 <= i < 8 implies bitseq::bit_at(left[k], i) == bitseq::bit_at(
            right[k],
            i,
        ) by {
            assert(bitseq::unpack(left)[8 * k + i] == bitseq::unpack(right)[8 * k + i]);
            assert((8 * k + i) / 8 == k && (8 * k + i) % 8 == i);
        }
        lemma_byte(left[k], right[k]);
    }
    assert forall|k: int| 0 <= k < a.len() implies a[k] == b[k] by {
        if k > 0 {
            assert(a[k] == left[k - 1] && b[k] == right[k - 1]);
        }
    }
    assert(a =~= b);
}

/// The point count says where a block ends: bytes after it change nothing.
pub proof fn lemma_bytes_after(block: Seq<u8>, more: Seq<u8>)
    requires
        decoded(block) is Ok,
    ensures
        decoded(block + more) == decoded(block),
{
    let stream = bitseq::unpack(block.skip(1));
    let after = bitseq::unpack(more);
    assert((block + more).skip(1) =~= block.skip(1) + more);
    bitseq::lemma_unpack_join(block.skip(1), more);
    lemma_longer(block[0], stream, after);
}

/// Points taken off the front of a stream are taken off the front of any longer one alike.
proof fn lemma_longer(tag: u8, s: Seq<bool>, more: Seq<bool>)
    ensures
        taken(tag, s) matches Some((points, rest)) ==> taken(tag, s + more) == Some(
            (points, rest + more),
        ),
{
    gorilla::lemma_count(s, more);
    decimal::lemma_count(s, more);
    chimp::lemma_count(s, more);
    chimp128::lemma_count(s, more);
    elf::lemma_count(s, more);
    alp::lemma_count(s, more);
    packed::lemma_count(s, more);
}

/// A block whose points end in its last byte needs every byte of it.
pub proof fn lemma_truncated(block: Seq<u8>, n: int)
    requires
        is_tag(block[0]),
        fills(block),
        0 <= n < block.len(),
    ensures
        decoded(block.take(n)) == Err::<Seq<Point>, Error>(Error::MalformedBlock),
        n > 0 ==> taken(block[0], bitseq::unpack(block.skip(1).take(n - 1))) is None,
{
    if n > 0 {
        let body = block.skip(1);
        let kept = body.take(n - 1);
        let lost = body.skip(n - 1);
        assert(block.take(n).skip(1) =~= kept);
        assert(body =~= kept + lost);
        bitseq::lemma_unpack_join(kept, lost);
        assert(bitseq::unpack(lost).len() == 8 * lost.len());
        lemma_longer(block[0], bitseq::unpack(kept), bitseq::unpack(lost));
    }
}

/// ALP and the packed codec write blocks of at most one point alike, but for the tag.
pub proof fn lemma_at_most_one(points: Seq<Point>)
    requires
        points.len() <= 1,
    ensures
        Packed.stream_of(points) == Alp.stream_of(points),
{
    alp::lemma_exponent_of_one(points);
    packed::lemma_exponent_of_one(points);
    packed::lemma_at_most_one(points, packed::exponent_of(points));
}

/// Of a Gorilla block, no shorter run of its bytes decodes.
pub proof fn lemma_gorilla_truncated(points: Seq<Point>, block: Seq<u8>, n: int)
    requires
        points.len() <= u32::MAX,
        is_block(block, TAG_GORILLA, gorilla::stream(points)),
        0 <= n < block.len(),
    ensures
        decoded(block.take(n)) == Err::<Seq<Point>, Error>(Error::MalformedBlock),
{
    lemma_gorilla_lossless(points, block);
    lemma_truncated(block, n);
}

/// Of the block that the decimal codec writes, no shorter run of its bytes decodes.
pub proof fn lemma_decimal_truncated(points: Seq<Point>, block: Seq<u8>, n: int)
    requires
        points.len() <= u32::MAX,
        is_block(block, Decimal.tag_of(points), Decimal.stream_of(points)),
        0 <= n < block.len(),
    ensures
        decoded(block.take(n)) == Err::<Seq<Point>, Error>(Error::MalformedBlock),
{
    lemma_decimal_lossless(points, block);
    lemma_truncated(block, n);
}

/// Of a Chimp block, no shorter run of its bytes decodes.
pub proof fn lemma_chimp_truncated(points: Seq<Point>, block: Seq<u8>, n: int)
    requires
        points.len() <= u32::MAX,
        is_block(block, TAG_CHIMP, chimp::stream(points)),
        0 <= n < block.len(),
    ensures
        decoded(block.take(n)) == Err::<Seq<Point>, Error>(Error::MalformedBlock),
{
    lemma_chimp_lossless(points, block);
    lemma_truncated(block, n);
}

/// Of a Chimp128 block, no shorter run of its bytes decodes.
pub proof fn lemma_chimp128_truncated(points: Seq<Point>, block: Seq<u8>, n: int)
    requires
        points.len() <= u32::MAX,
        is_block(block, TAG_CHIMP128, chimp128::stream(points)),
        0 <= n < block.len(),
    ensures
        decoded(block.take(n)) == Err::<Seq<Point>, Error>(Error::MalformedBlock),
{
    lemma_chimp128_lossless(points, block);
    lemma_truncated(block, n);
}

/// Of the block that Elf writes, no shorter run of its bytes decodes.
pub proof fn lemma_elf_truncated(points: Seq<Point>, block: Seq<u8>, n: int)
    requires
        points.len() <= u32::MAX,
        is_block(block, Elf.tag_of(points), Elf.stream_of(points)),
        0 <= n < block.len(),
    ensures
        decoded(block.take(n)) == Err::<Seq<Point>, Error>(Error::MalformedBlock),
{
    lemma_elf_lossless(points, block);
    lemma_truncated(block, n);
}

/// Of the block that ALP writes, no shorter run of its bytes decodes.
pub proof fn lemma_alp_truncated(points: Seq<Point>, block: Seq<u8>, n: int)
    requires
        points.len() <= u32::MAX,
        is_block(block, Alp.tag_of(points), Alp.stream_of(points)),
        0 <= n < block.len(),
    ensures
        decoded(block.take(n)) == Err::<Seq<Point>, Error>(Error::MalformedBlock),
        block[0] == TAG_ALP && n > 0 ==> alp::parsed(
            bitseq::unpack(block.skip(1).take(n - 1)),
        ) is None,
{
    lemma_alp_lossless(points, block);
    lemma_truncated(block, n);
}

/// Of the block that the packed codec writes, no shorter run of its bytes decodes.
pub proof fn lemma_packed_truncated(points: Seq<Point>, block: Seq<u8>, n: int)
    requires
        points.len() <= u32::MAX,
        is_block(block, Packed.tag_of(points), Packed.stream_of(points)),
        0 <= n < block.len(),
    ensures
        decoded(block.take(n)) == Err::<Seq<Point>, Error>(Error::MalformedBlock),
        block[0] == TAG_PACKED && n > 0 ==> packed::parsed(
            bitseq::unpack(block.skip(1).take(n - 1)),
        ) is None,
{
    lemma_packed_lossless(points, block);
    lemma_truncated(block, n);
}

} // verus!
