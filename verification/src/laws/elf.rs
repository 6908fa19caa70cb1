//! Elf: which bits are erased, and that rounding puts them back.

use crate::bitseq;
use crate::codec::chimp;
use crate::codec::decimal;
use crate::codec::elf;
use crate::codec::elf::Elf;
use crate::codec::Codec;
use crate::laws::decimal as scaled;
use crate::point::Point;
use vstd::arithmetic::div_mod::*;
use vstd::arithmetic::power2::*;
use vstd::prelude::*;

verus! {

/// A pattern without its low `width` bits.
pub open spec fn without(value: u64, width: nat) -> u64 {
    ((value as nat / pow2(width)) * pow2(width)) as u64
}

/// A reading rounded to decimal places is the integer nearest to it times that power of ten,
/// divided back.
pub proof fn law_rounded(value: u64, places: nat)
    ensures
        decimal::whole_of(value, places) is None <==> elf::rounded_of(value, places) is None,
        decimal::whole_of(value, places) matches Some(n) ==> elf::rounded_of(value, places) == Some(
            decimal::unscaled_of(n, places),
        ),
{
}

/// The two ways of clearing low bits come to the same.
proof fn lemma_without(value: u64, width: nat)
    requires
        width <= 52,
    ensures
        elf::cleared(value, width) == without(value, width),
{
    lemma_pow2_pos(width);
    lemma2_to64_rest();
    if width < 52 {
        lemma_pow2_strictly_increases(width, 52);
    }
    lemma_fundamental_div_mod(value as int, pow2(width) as int);
    vstd::arithmetic::mul::lemma_mul_is_commutative(
        value as int / pow2(width) as int,
        pow2(width) as int,
    );
    lemma_mod_decreases(value as nat, pow2(width));
}

/// What is left of a reading is the reading without as many of its low bits as can be spared, of
/// 52: rounding still gives it back, and would not without more of them.
pub proof fn law_erased(value: u64, places: nat, width: nat)
    requires
        width <= 52,
        width == 0 || elf::rounded_of(without(value, width), places) == Some(value),
        forall|more: nat|
            width < more <= 52 ==> elf::rounded_of(#[trigger] without(value, more), places)
                != Some(value),
    ensures
        elf::erased_of(value, places) == without(value, width),
{
    lemma_spared_down(value, places, width, 52);
    lemma_without(value, width);
}

/// The search ends at the widest erasure that survives.
proof fn lemma_spared_down(value: u64, places: nat, width: nat, from: nat)
    requires
        width <= from <= 52,
        width == 0 || elf::rounded_of(without(value, width), places) == Some(value),
        forall|more: nat|
            width < more <= 52 ==> elf::rounded_of(#[trigger] without(value, more), places)
                != Some(value),
    ensures
        elf::spared(value, places, from) == width,
    decreases from,
{
    lemma_without(value, from);
    lemma_without(value, width);
    if width < from {
        assert(elf::rounded_of(without(value, from), places) != Some(value));
        lemma_spared_down(value, places, width, (from - 1) as nat);
    }
}

/// Rounding gives back a reading that scales from what erasing left of it.
pub proof fn law_restored(value: u64, places: nat)
    requires
        decimal::scaled_of(value, places) is Some,
    ensures
        elf::rounded_of(elf::erased_of(value, places), places) == Some(value),
{
    elf::lemma_spared(value, places, 52);
}

/// A block has tag 4 where all its readings scale at one of the exponents 0 to 17. Its stream is
/// the count, the smallest such exponent in eight bits, and if there are points those of a Chimp
/// block over the erased readings.
pub proof fn law_block(points: Seq<Point>, e: nat)
    requires
        e <= 17,
        scaled::all_scale(points, e),
        forall|d: nat| d < e ==> !#[trigger] scaled::all_scale(points, d),
    ensures
        Elf.tag_of(points) == 0x04,
        points.len() == 0 ==> Elf.stream_of(points) == bitseq::varint(0) + bitseq::bits_of(0, 8),
        points.len() > 0 ==> Elf.stream_of(points) == bitseq::varint(points.len())
            + bitseq::bits_of(e, 8) + chimp::body_bits(
            points.map_values(
                |p: Point|
                    Point { timestamp: p.timestamp, value: elf::erased_of(p.value, e) },
            ),
        ),
{
    scaled::lemma_smallest(points, e);
    assert(elf::erased(points, e) =~= points.map_values(
        |p: Point| Point { timestamp: p.timestamp, value: elf::erased_of(p.value, e) },
    ));
    if points.len() == 0 {
        assert(scaled::all_scale(points, 0));
    }
}

/// Where at each exponent from 0 to 17 some reading does not scale, the block is the Chimp block
/// of the same points.
pub proof fn law_fallback(points: Seq<Point>)
    requires
        forall|d: nat| d <= 17 ==> !#[trigger] scaled::all_scale(points, d),
    ensures
        Elf.tag_of(points) == 0x02,
        Elf.stream_of(points) == chimp::stream(points),
{
    scaled::law_fallback(points);
}

/// Reading a block: the count, then the decimal places in eight bits, which are at most 17, then
/// the points of a Chimp block, each reading rounded to that many places. It is an error if one
/// is too large for that.
pub proof fn law_read(count: u64, places: u64, rest: Seq<bool>)
    requires
        places < 256,
    ensures
        elf::taken(bitseq::varint(count as nat) + (bitseq::bits_of(places as nat, 8) + rest)) == (
        if places > 17 {
            None
        } else if count == 0 {
            Some((Seq::<Point>::empty(), rest))
        } else {
            match chimp::take_body(rest, count as nat) {
                None => None,
                Some((points, rest)) => match elf::restored(points, places as nat) {
                    None => None,
                    Some(restored) => Some((restored, rest)),
                },
            }
        }),
{
    lemma2_to64();
    bitseq::lemma_take_varint(count, bitseq::bits_of(places as nat, 8) + rest);
    bitseq::lemma_take_bits(places, 8, rest);
}

/// Rounding a block rounds each reading and leaves the timestamps.
pub proof fn law_restored_points(points: Seq<Point>, places: nat, i: int)
    requires
        0 <= i < points.len(),
    ensures
        elf::rounded_of(points[i].value, places) is None ==> elf::restored(points, places) is None,
        elf::restored(points, places) matches Some(restored) ==> {
            &&& restored.len() == points.len()
            &&& restored[i].timestamp == points[i].timestamp
            &&& elf::rounded_of(points[i].value, places) == Some(restored[i].value)
        },
        elf::restored(points, places) is None ==> exists|k: int|
            0 <= k < points.len() && #[trigger] elf::rounded_of(points[k].value, places) is None,
{
}

} // verus!
