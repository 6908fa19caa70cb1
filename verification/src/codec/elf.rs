//! Elf: Chimp over values whose low bits have been erased.
//!
//! A reading with few decimal places is the nearest binary64 number to a short decimal, and so
//! are many patterns around it. Erasing picks the one with the most zeros at its end, and
//! rounding to the decimal places puts the reading back.

use crate::bits::{BitReader, BitWriter};
use crate::bitseq;
use crate::codec;
use crate::codec::chimp;
use crate::codec::chimp::Chimp;
use crate::codec::decimal;
use crate::codec::decimal::MAX_SCALE;
use crate::codec::{Codec, TAG_CHIMP, TAG_ELF};
use crate::error::Error;
use crate::point::Point;
use vstd::arithmetic::div_mod::*;
use vstd::arithmetic::power2::*;
use vstd::bits::*;
use vstd::prelude::*;

verus! {

/// The Elf codec.
pub struct Elf;

/// How many low bits are erased at most: the whole fraction of a binary64 number.
pub const MAX_ERASED: u64 = 52;

/// A reading rounded to `places` decimal places. There is none when it is too large for that.
pub open spec fn rounded_of(value: u64, places: nat) -> Option<u64> {
    match decimal::whole_of(value, places) {
        None => None,
        Some(integer) => Some(decimal::unscaled_of(integer, places)),
    }
}

/// A pattern with its low `width` bits cleared.
pub open spec fn cleared(value: u64, width: nat) -> u64 {
    (value - value % (pow2(width) as u64)) as u64
}

/// Whether a reading can spare its low `width` bits.
pub open spec fn spares(value: u64, places: nat, width: nat) -> bool {
    rounded_of(cleared(value, width), places) == Some(value)
}

/// How many low bits a reading can spare, of at most `width`.
pub open spec fn spared(value: u64, places: nat, width: nat) -> nat
    decreases width,
{
    if width == 0 || spares(value, places, width) {
        width
    } else {
        spared(value, places, (width - 1) as nat)
    }
}

/// A reading without the low bits that it can spare.
pub open spec fn erased_of(value: u64, places: nat) -> u64 {
    cleared(value, spared(value, places, MAX_ERASED as nat))
}

/// The bits erased are the most that can be, and a reading that scales comes back from what is
/// left of it.
pub proof fn lemma_spared(value: u64, places: nat, width: nat)
    requires
        decimal::scaled_of(value, places) is Some,
    ensures
        spared(value, places, width) <= width,
        spares(value, places, spared(value, places, width)),
        forall|more: nat|
            spared(value, places, width) < more <= width ==> !#[trigger] spares(
                value,
                places,
                more,
            ),
    decreases width,
{
    if width == 0 {
        lemma2_to64();
        decimal::lemma_scaled(value, places);
    } else if !spares(value, places, width) {
        lemma_spared(value, places, (width - 1) as nat);
    }
}

/// The points of a block with their readings erased.
pub open spec fn erased(points: Seq<Point>, places: nat) -> Seq<Point> {
    Seq::new(
        points.len(),
        |i: int|
            Point {
                timestamp: points[i].timestamp,
                value: erased_of(points[i].value, places),
            },
    )
}

/// The points of a block with their readings rounded. There are none when a reading is too large
/// for that.
pub open spec fn restored(points: Seq<Point>, places: nat) -> Option<Seq<Point>> {
    if forall|i: int| 0 <= i < points.len() ==> #[trigger] rounded_of(points[i].value, places) is Some {
        Some(
            Seq::new(
                points.len(),
                |i: int|
                    Point {
                        timestamp: points[i].timestamp,
                        value: rounded_of(points[i].value, places)->Some_0,
                    },
            ),
        )
    } else {
        None
    }
}

/// Rounding undoes erasing.
pub proof fn lemma_restored(points: Seq<Point>, places: nat)
    requires
        decimal::scales(points, places),
    ensures
        restored(erased(points, places), places) == Some(points),
{
    assert forall|i: int| 0 <= i < points.len() implies #[trigger] rounded_of(
        erased(points, places)[i].value,
        places,
    ) == Some(points[i].value) by {
        assert(decimal::scaled_of(points[i].value, places) is Some);
        lemma_spared(points[i].value, places, MAX_ERASED as nat);
    }
    assert(restored(erased(points, places), places)->Some_0 =~= points);
}

/// The stream of a block at `places` decimal places.
pub open spec fn stream(points: Seq<Point>, places: nat) -> Seq<bool> {
    let header = bitseq::varint(points.len()) + bitseq::bits_of(places, 8);
    if points.len() == 0 {
        header
    } else {
        header + chimp::body_bits(erased(points, places))
    }
}

/// Takes the points of a block off the front of a stream.
pub open spec fn taken(s: Seq<bool>) -> Option<(Seq<Point>, Seq<bool>)> {
    match bitseq::take_varint(s) {
        None => None,
        Some((count, rest)) => match bitseq::take_bits(rest, 8) {
            None => None,
            Some((places, rest)) => if places > MAX_SCALE {
                None
            } else if count == 0 {
                Some((Seq::empty(), rest))
            } else {
                match chimp::take_body(rest, count as nat) {
                    None => None,
                    Some((points, rest)) => match restored(points, places as nat) {
                        None => None,
                        Some(points) => Some((points, rest)),
                    },
                }
            },
        },
    }
}

/// The points that a stream stands for.
pub open spec fn parsed(s: Seq<bool>) -> Option<Seq<Point>> {
    match taken(s) {
        None => None,
        Some((points, rest)) => Some(points),
    }
}

/// The points of a block are read back from its stream, whatever follows it.
pub proof fn lemma_roundtrip(points: Seq<Point>, places: nat, rest: Seq<bool>)
    requires
        points.len() <= u32::MAX,
        places <= MAX_SCALE,
        decimal::scales(points, places),
    ensures
        taken(stream(points, places) + rest) == Some((points, rest)),
{
    let count = points.len() as u64;
    let body = if points.len() == 0 {
        rest
    } else {
        chimp::body_bits(erased(points, places)) + rest
    };
    let second = bitseq::bits_of(places, 8) + body;
    assert(stream(points, places) + rest =~= bitseq::varint(count as nat) + second);
    bitseq::lemma_take_varint(count, second);
    lemma2_to64();
    bitseq::lemma_take_bits(places as u64, 8, body);
    if points.len() == 0 {
        assert(points =~= Seq::<Point>::empty());
    } else {
        chimp::lemma_take_body(erased(points, places), rest);
        lemma_restored(points, places);
    }
}

/// The point count says where a stream ends: what follows it changes nothing, and it stands for
/// as many points as it says.
pub proof fn lemma_count(s: Seq<bool>, more: Seq<bool>)
    ensures
        taken(s) matches Some((points, rest)) ==> {
            &&& taken(s + more) == Some((points, rest + more))
            &&& bitseq::take_varint(s) matches Some((count, _)) && count == points.len()
        },
{
    bitseq::lemma_extend_varint(s, more);
    if let Some((count, rest)) = bitseq::take_varint(s) {
        bitseq::lemma_extend_bits(rest, 8, more);
        if let Some((places, rest)) = bitseq::take_bits(rest, 8) {
            if count > 0 {
                chimp::lemma_extend_body(rest, count as nat, more);
            }
        }
    }
}

/// A reading rounded to `places` decimal places, if it is not too large for that.
pub fn rounded(value: u64, places: u8) -> (result: Option<u64>)
    requires
        places <= MAX_SCALE,
    ensures
        result == rounded_of(value, places as nat),
{
    match decimal::whole(value, places) {
        None => None,
        Some(integer) => Some(decimal::unscaled(integer, places)),
    }
}

/// A reading without the low bits that it can spare at `places` decimal places.
pub fn erase(value: u64, places: u8) -> (result: u64)
    requires
        places <= MAX_SCALE,
    ensures
        result == erased_of(value, places as nat),
{
    let mut width: u64 = MAX_ERASED;
    while width > 0
        invariant
            width <= MAX_ERASED,
            places <= MAX_SCALE,
            spared(value, places as nat, MAX_ERASED as nat) == spared(
                value,
                places as nat,
                width as nat,
            ),
        decreases width,
    {
        proof {
            lemma_u64_pow2_no_overflow(width as nat);
            lemma_u64_shl_is_mul(1, width);
            lemma_pow2_pos(width as nat);
            lemma_mod_decreases(value as nat, pow2(width as nat));
        }
        let short: u64 = value - value % (1u64 << width);
        if let Some(back) = rounded(short, places) {
            if back == value {
                return short;
            }
        }
        width = width - 1;
    }
    proof {
        lemma2_to64();
    }
    value
}

/// The points of a block with their readings erased.
fn erase_all(points: &[Point], places: u8) -> (short: Vec<Point>)
    requires
        places <= MAX_SCALE,
    ensures
        short@ == erased(points@, places as nat),
{
    let mut short: Vec<Point> = Vec::with_capacity(points.len());
    let mut i: usize = 0;
    while i < points.len()
        invariant
            places <= MAX_SCALE,
            i <= points@.len(),
            short@ == erased(points@, places as nat).take(i as int),
        decreases points.len() - i,
    {
        short.push(Point::new(points[i].timestamp, erase(points[i].value, places)));
        i = i + 1;
        assert(short@ =~= erased(points@, places as nat).take(i as int));
    }
    assert(short@ =~= erased(points@, places as nat));
    short
}

/// The points of a block with their readings rounded.
fn restore_all(short: &[Point], places: u8) -> (result: Result<Vec<Point>, Error>)
    requires
        places <= MAX_SCALE,
    ensures
        codec::decodes(restored(short@, places as nat), result),
{
    let mut points: Vec<Point> = Vec::with_capacity(short.len());
    let mut i: usize = 0;
    while i < short.len()
        invariant
            places <= MAX_SCALE,
            i <= short@.len(),
            points@.len() == i,
            forall|j: int|
                0 <= j < i ==> #[trigger] rounded_of(short@[j].value, places as nat) == Some(
                    points@[j].value,
                ) && points@[j].timestamp == short@[j].timestamp,
        decreases short.len() - i,
    {
        match rounded(short[i].value, places) {
            None => {
                assert(rounded_of(short@[i as int].value, places as nat) is None);
                return Err(Error::MalformedBlock);
            },
            Some(value) => points.push(Point::new(short[i].timestamp, value)),
        }
        i = i + 1;
    }
    assert(points@ =~= restored(short@, places as nat)->Some_0);
    Ok(points)
}

impl Codec for Elf {
    open spec fn tag_of(&self, points: Seq<Point>) -> u8 {
        if decimal::scale_from(points, 0) is Some {
            TAG_ELF
        } else {
            TAG_CHIMP
        }
    }

    open spec fn stream_of(&self, points: Seq<Point>) -> Seq<bool> {
        match decimal::scale_from(points, 0) {
            Some(places) => stream(points, places),
            None => chimp::stream(points),
        }
    }

    open spec fn called(&self) -> Seq<char> {
        "elf"@
    }

    fn name(&self) -> &'static str {
        "elf"
    }

    fn encode(&self, points: &[Point]) -> Result<Vec<u8>, Error> {
        codec::check_count(points.len())?;
        if let Some((places, _)) = decimal::choose_scale(points) {
            let mut w = BitWriter::with_capacity(points.len());
            w.write_varint(points.len() as u64);
            w.write_bits(places as u64, 8);
            if points.len() > 0 {
                chimp::write_body(&mut w, erase_all(points, places).as_slice());
            }
            assert(w@ =~= stream(points@, places as nat));
            let block: Vec<u8> = codec::seal(TAG_ELF, w);
            proof {
                codec::lemma_elf_lossless(points@, block@);
            }
            return Ok(block);
        }
        Chimp.encode(points)
    }
}

/// The points that the body of an Elf block stands for.
pub fn decode(body: &[u8]) -> (result: Result<Vec<Point>, Error>)
    ensures
        codec::decodes(parsed(bitseq::unpack(body@)), result),
{
    let mut r = BitReader::new(body);
    let count: u64 = r.read_varint()?;
    let places: u64 = r.read_bits(8)?;
    if places > MAX_SCALE as u64 {
        return Err(Error::MalformedBlock);
    }
    if count == 0 {
        let points: Vec<Point> = Vec::new();
        assert(points@ =~= Seq::<Point>::empty());
        return Ok(points);
    }
    let short: Vec<Point> = chimp::read_body(&mut r, count)?;
    restore_all(short.as_slice(), places as u8)
}

} // verus!
