//! Chimp: as Gorilla, with the leading zeros rounded down to one of eight counts.
//!
//! Three bits name the count where Gorilla spends five, and the trailing zeros are stored only
//! where there are enough of them to pay for it.

use crate::bits::{BitReader, BitWriter};
use crate::bitseq;
use crate::codec;
use crate::codec::dod;
use crate::codec::dod::Dod;
use crate::codec::gorilla;
use crate::codec::gorilla::Window;
use crate::codec::{Codec, TAG_CHIMP};
use crate::error::Error;
use crate::point::Point;
use vstd::arithmetic::power2::*;
use vstd::prelude::*;
use vstd::std_specs::bits::*;

verus! {

/// The Chimp codec.
pub struct Chimp;

/// From how many trailing zeros on they are stored: one more than six, which is where the nine
/// bits of overhead pay for the window that they save.
pub const MIN_TRAILING: u64 = 7;

/// The eight counts of leading zeros that can be stated.
pub open spec fn leading_at(index: u64) -> u64 {
    if index == 0 {
        0
    } else if index == 1 {
        8
    } else if index == 2 {
        12
    } else if index == 3 {
        16
    } else if index == 4 {
        18
    } else if index == 5 {
        20
    } else if index == 6 {
        22
    } else {
        24
    }
}

/// Which of the counts is stated for an XOR: the largest that it has.
pub open spec fn index_of(xor: u64) -> u64 {
    let zeros = u64_leading_zeros(xor);
    if zeros < 8 {
        0
    } else if zeros < 12 {
        1
    } else if zeros < 16 {
        2
    } else if zeros < 18 {
        3
    } else if zeros < 20 {
        4
    } else if zeros < 22 {
        5
    } else if zeros < 24 {
        6
    } else {
        7
    }
}

/// The count stated for an XOR is the largest of the eight that its leading zeros reach.
pub proof fn lemma_index(xor: u64)
    ensures
        index_of(xor) < 8,
        leading_at(index_of(xor)) <= u64_leading_zeros(xor),
        forall|index: u64|
            index < 8 && #[trigger] leading_at(index) <= u64_leading_zeros(xor) ==> index
                <= index_of(xor),
{
    axiom_u64_leading_zeros(xor);
}

/// The window of an XOR whose trailing zeros are stored.
pub open spec fn window_of(xor: u64) -> Window {
    Window {
        leading: leading_at(index_of(xor)),
        trailing: u64_trailing_zeros(xor) as u64,
    }
}

/// How an XOR is written with its trailing zeros: the leading zeros, the width, and what lies
/// between.
pub open spec fn window_bits(xor: u64) -> Seq<bool> {
    let window = window_of(xor);
    bitseq::bits_of(index_of(xor) as nat, 3) + (bitseq::bits_of(window.width(), 6)
        + bitseq::bits_of((xor >> window.trailing) as nat, window.width()))
}

/// Takes an XOR with its trailing zeros off the front of a stream. There is none when the window
/// is empty, or does not fit in 64 bits.
pub open spec fn take_window(s: Seq<bool>) -> Option<(u64, Seq<bool>)> {
    match bitseq::take_bits(s, 3) {
        None => None,
        Some((index, rest)) => match bitseq::take_bits(rest, 6) {
            None => None,
            Some((width, rest)) => if width == 0 || leading_at(index) + width > 64 {
                None
            } else {
                let trailing = (64 - leading_at(index) - width) as u64;
                match bitseq::take_bits(rest, width as nat) {
                    None => None,
                    Some((bits, rest)) => Some((bits << trailing, rest)),
                }
            },
        },
    }
}

/// How an XOR is written down to its last bit: the leading zeros, where they are not those of
/// the value before, and all that follows them.
pub open spec fn open_bits(bucket: Option<u64>, xor: u64) -> Seq<bool> {
    let index = index_of(xor);
    let value = bitseq::bits_of(xor as nat, (64 - leading_at(index)) as nat);
    if bucket == Some(index) {
        bitseq::bits_of(2, 2) + value
    } else {
        bitseq::bits_of(3, 2) + (bitseq::bits_of(index as nat, 3) + value)
    }
}

/// Takes an XOR down to its last bit off the front of a stream, and which count of leading zeros
/// it states. There is none when it leaves the count to a value before that stated none.
pub open spec fn take_open(fresh: bool, bucket: Option<u64>, s: Seq<bool>) -> Option<
    ((u64, u64), Seq<bool>),
> {
    if fresh {
        match bitseq::take_bits(s, 3) {
            None => None,
            Some((index, rest)) => match bitseq::take_bits(
                rest,
                (64 - leading_at(index)) as nat,
            ) {
                None => None,
                Some((xor, rest)) => Some(((xor, index), rest)),
            },
        }
    } else {
        match bucket {
            None => None,
            Some(index) => match bitseq::take_bits(s, (64 - leading_at(index)) as nat) {
                None => None,
                Some((xor, rest)) => Some(((xor, index), rest)),
            },
        }
    }
}

/// The count of leading zeros that the value after can leave unstated. Storing the trailing
/// zeros leaves none.
pub open spec fn bucket_after(bucket: Option<u64>, xor: u64) -> Option<u64> {
    if xor == 0 {
        bucket
    } else if u64_trailing_zeros(xor) >= MIN_TRAILING {
        None
    } else {
        Some(index_of(xor))
    }
}

/// How an XOR is written.
pub open spec fn xor_bits(bucket: Option<u64>, xor: u64) -> Seq<bool> {
    if xor == 0 {
        bitseq::bits_of(0, 2)
    } else if u64_trailing_zeros(xor) >= MIN_TRAILING {
        bitseq::bits_of(1, 2) + window_bits(xor)
    } else {
        open_bits(bucket, xor)
    }
}

/// Takes an XOR off the front of a stream, and the count of leading zeros that it leaves.
pub open spec fn take_xor(bucket: Option<u64>, s: Seq<bool>) -> Option<
    ((u64, Option<u64>), Seq<bool>),
> {
    match bitseq::take_bits(s, 2) {
        None => None,
        Some((prefix, rest)) => if prefix == 0 {
            Some(((0, bucket), rest))
        } else if prefix == 1 {
            match take_window(rest) {
                None => None,
                Some((xor, rest)) => Some(((xor, None), rest)),
            }
        } else {
            match take_open(prefix == 3, bucket, rest) {
                None => None,
                Some(((xor, index), rest)) => Some(((xor, Some(index)), rest)),
            }
        },
    }
}

/// An XOR with its trailing zeros is read back from what was written for it.
pub proof fn lemma_take_window(xor: u64, rest: Seq<bool>)
    requires
        xor != 0,
        u64_trailing_zeros(xor) >= MIN_TRAILING,
    ensures
        take_window(window_bits(xor) + rest) == Some((xor, rest)),
{
    let w = window_of(xor);
    lemma_index(xor);
    gorilla::lemma_zeros(xor);
    gorilla::lemma_window(w, xor);
    let kept = xor >> w.trailing;
    let index = bitseq::bits_of(index_of(xor) as nat, 3);
    let width = bitseq::bits_of(w.width(), 6);
    let value = bitseq::bits_of(kept as nat, w.width());
    let second = width + (value + rest);
    assert(window_bits(xor) + rest == index + second) by {
        bitseq::lemma_join(index, width + value, rest);
        bitseq::lemma_join(width, value, rest);
    }
    assert(pow2(3) == 8 && pow2(6) == 64) by {
        lemma2_to64();
    }
    bitseq::lemma_take_bits(index_of(xor), 3, second);
    bitseq::lemma_take_bits(w.width() as u64, 6, value + rest);
    bitseq::lemma_take_bits(kept, w.width(), rest);
}

/// An XOR fits in the bits that its leading zeros leave.
proof fn lemma_open_fits(xor: u64)
    ensures
        xor < pow2((64 - leading_at(index_of(xor))) as nat),
        leading_at(index_of(xor)) <= 24,
{
    lemma_index(xor);
    gorilla::lemma_window(Window { leading: leading_at(index_of(xor)), trailing: 0 }, xor);
    assert(xor >> 0u64 == xor) by (bit_vector);
}

/// An XOR down to its last bit is read back from what was written for it.
pub proof fn lemma_take_open(bucket: Option<u64>, xor: u64, rest: Seq<bool>)
    ensures
        match bitseq::take_bits(open_bits(bucket, xor) + rest, 2) {
            None => false,
            Some((prefix, after)) => {
                &&& prefix == 2 || prefix == 3
                &&& take_open(prefix == 3, bucket, after) == Some(((xor, index_of(xor)), rest))
            },
        },
{
    let index = index_of(xor);
    let width = (64 - leading_at(index)) as nat;
    let value = bitseq::bits_of(xor as nat, width);
    lemma_index(xor);
    lemma_open_fits(xor);
    assert(pow2(2) == 4 && pow2(3) == 8) by {
        lemma2_to64();
    }
    bitseq::lemma_take_bits(xor, width, rest);
    if bucket == Some(index) {
        bitseq::lemma_join(bitseq::bits_of(2, 2), value, rest);
        bitseq::lemma_take_bits(2, 2, value + rest);
    } else {
        let stated = bitseq::bits_of(index as nat, 3);
        bitseq::lemma_join(bitseq::bits_of(3, 2), stated + value, rest);
        bitseq::lemma_join(stated, value, rest);
        bitseq::lemma_take_bits(3, 2, stated + (value + rest));
        bitseq::lemma_take_bits(index, 3, value + rest);
    }
}

/// An XOR is read back from what was written for it, and leaves the same count.
proof fn lemma_take_xor(bucket: Option<u64>, xor: u64, rest: Seq<bool>)
    ensures
        take_xor(bucket, xor_bits(bucket, xor) + rest) == Some(
            ((xor, bucket_after(bucket, xor)), rest),
        ),
{
    assert(pow2(2) == 4) by {
        lemma2_to64();
    }
    if xor == 0 {
        bitseq::lemma_take_bits(0, 2, rest);
    } else if u64_trailing_zeros(xor) >= MIN_TRAILING {
        bitseq::lemma_join(bitseq::bits_of(1, 2), window_bits(xor), rest);
        bitseq::lemma_take_bits(1, 2, window_bits(xor) + rest);
        lemma_take_window(xor, rest);
    } else {
        lemma_take_open(bucket, xor, rest);
    }
}

/// A window taken off the front of a stream is taken off the front of any longer one alike.
pub proof fn lemma_extend_window(s: Seq<bool>, more: Seq<bool>)
    ensures
        take_window(s) matches Some((xor, rest)) ==> take_window(s + more) == Some(
            (xor, rest + more),
        ),
{
    bitseq::lemma_extend_bits(s, 3, more);
    if let Some((index, rest)) = bitseq::take_bits(s, 3) {
        bitseq::lemma_extend_bits(rest, 6, more);
        if let Some((width, rest)) = bitseq::take_bits(rest, 6) {
            bitseq::lemma_extend_bits(rest, width as nat, more);
        }
    }
}

/// An XOR taken off the front of a stream is taken off the front of any longer one alike.
pub proof fn lemma_extend_open(fresh: bool, bucket: Option<u64>, s: Seq<bool>, more: Seq<bool>)
    ensures
        take_open(fresh, bucket, s) matches Some((taken, rest)) ==> take_open(
            fresh,
            bucket,
            s + more,
        ) == Some((taken, rest + more)),
{
    if fresh {
        bitseq::lemma_extend_bits(s, 3, more);
        if let Some((index, rest)) = bitseq::take_bits(s, 3) {
            bitseq::lemma_extend_bits(rest, (64 - leading_at(index)) as nat, more);
        }
    } else if let Some(index) = bucket {
        bitseq::lemma_extend_bits(s, (64 - leading_at(index)) as nat, more);
    }
}

/// An XOR taken off the front of a stream is taken off the front of any longer one alike.
proof fn lemma_extend_xor(bucket: Option<u64>, s: Seq<bool>, more: Seq<bool>)
    ensures
        take_xor(bucket, s) matches Some((taken, rest)) ==> take_xor(bucket, s + more) == Some(
            (taken, rest + more),
        ),
{
    bitseq::lemma_extend_bits(s, 2, more);
    if let Some((prefix, rest)) = bitseq::take_bits(s, 2) {
        lemma_extend_window(rest, more);
        lemma_extend_open(prefix == 3, bucket, rest, more);
    }
}

/// How the points after the first are written.
pub open spec fn point_bits(
    times: Dod,
    previous: u64,
    bucket: Option<u64>,
    points: Seq<Point>,
) -> Seq<bool>
    decreases points.len(),
{
    if points.len() == 0 {
        Seq::empty()
    } else {
        let point = points[0];
        let xor = point.value ^ previous;
        dod::dod_bits(times.change(point.timestamp)) + (xor_bits(bucket, xor) + point_bits(
            times.after(point.timestamp),
            point.value,
            bucket_after(bucket, xor),
            points.skip(1),
        ))
    }
}

/// Takes `n` points after the first off the front of a stream.
pub open spec fn take_points(
    times: Dod,
    previous: u64,
    bucket: Option<u64>,
    n: nat,
    s: Seq<bool>,
) -> Option<(Seq<Point>, Seq<bool>)>
    decreases n,
{
    if n == 0 {
        Some((Seq::empty(), s))
    } else {
        match times.take(s) {
            None => None,
            Some((timestamp, rest)) => match take_xor(bucket, rest) {
                None => None,
                Some(((xor, bucket), rest)) => {
                    let value = xor ^ previous;
                    match take_points(
                        times.after(timestamp),
                        value,
                        bucket,
                        (n - 1) as nat,
                        rest,
                    ) {
                        None => None,
                        Some((points, rest)) => Some(
                            (seq![Point { timestamp, value }] + points, rest),
                        ),
                    }
                },
            },
        }
    }
}

/// How the points of a block are written: the first of them whole, then the others.
pub open spec fn body_bits(points: Seq<Point>) -> Seq<bool> {
    let first = points[0];
    bitseq::varint(bitseq::zigzag_of(first.timestamp) as nat) + (bitseq::bits_of(
        first.value as nat,
        64,
    ) + point_bits(Dod::start(first.timestamp), first.value, None, points.skip(1)))
}

/// Takes `count` points off the front of a stream.
pub open spec fn take_body(s: Seq<bool>, count: nat) -> Option<(Seq<Point>, Seq<bool>)> {
    match bitseq::take_signed(s) {
        None => None,
        Some((timestamp, rest)) => match bitseq::take_bits(rest, 64) {
            None => None,
            Some((value, rest)) => match take_points(
                Dod::start(timestamp),
                value,
                None,
                (count - 1) as nat,
                rest,
            ) {
                None => None,
                Some((points, rest)) => Some((seq![Point { timestamp, value }] + points, rest)),
            },
        },
    }
}

/// The stream of a block: how many points there are, then the points.
pub open spec fn stream(points: Seq<Point>) -> Seq<bool> {
    let count = bitseq::varint(points.len());
    if points.len() == 0 {
        count
    } else {
        count + body_bits(points)
    }
}

/// Takes the points of a block off the front of a stream.
pub open spec fn taken(s: Seq<bool>) -> Option<(Seq<Point>, Seq<bool>)> {
    match bitseq::take_varint(s) {
        None => None,
        Some((count, rest)) => if count == 0 {
            Some((Seq::empty(), rest))
        } else {
            take_body(rest, count as nat)
        },
    }
}

/// The points that a stream stands for.
pub open spec fn parsed(s: Seq<bool>) -> Option<Seq<Point>> {
    match taken(s) {
        None => None,
        Some((points, rest)) => Some(points),
    }
}

/// One point is read back from what was written for it, and the others after it.
proof fn lemma_take_point(
    times: Dod,
    previous: u64,
    bucket: Option<u64>,
    n: nat,
    point: Point,
    tail: Seq<bool>,
)
    ensures
        ({
            let xor = point.value ^ previous;
            let s = dod::dod_bits(times.change(point.timestamp)) + (xor_bits(bucket, xor) + tail);
            take_points(times, previous, bucket, n + 1, s) == (match take_points(
                times.after(point.timestamp),
                point.value,
                bucket_after(bucket, xor),
                n,
                tail,
            ) {
                None => None,
                Some((points, rest)) => Some((seq![point] + points, rest)),
            })
        }),
{
    let value = point.value;
    let xor = value ^ previous;
    let after = xor_bits(bucket, xor) + tail;
    dod::lemma_take_next(times, point.timestamp, after);
    lemma_take_xor(bucket, xor, tail);
    assert((value ^ previous) ^ previous == value) by (bit_vector);
    assert(times.take(dod::dod_bits(times.change(point.timestamp)) + after) == Some(
        (point.timestamp, after),
    ));
    assert(take_xor(bucket, after) == Some(((xor, bucket_after(bucket, xor)), tail)));
    assert(xor ^ previous == value);
}

/// A run of points is read back from what was written for it.
proof fn lemma_take_points(
    times: Dod,
    previous: u64,
    bucket: Option<u64>,
    points: Seq<Point>,
    rest: Seq<bool>,
)
    ensures
        take_points(
            times,
            previous,
            bucket,
            points.len(),
            point_bits(times, previous, bucket, points) + rest,
        ) == Some((points, rest)),
    decreases points.len(),
{
    let s = point_bits(times, previous, bucket, points) + rest;
    if points.len() == 0 {
        assert(s =~= rest);
        assert(points =~= Seq::<Point>::empty());
    } else {
        let point = points[0];
        let xor = point.value ^ previous;
        let next = times.after(point.timestamp);
        let time = dod::dod_bits(times.change(point.timestamp));
        let others = point_bits(next, point.value, bucket_after(bucket, xor), points.skip(1));
        let tail = others + rest;
        let after = xor_bits(bucket, xor) + tail;
        assert(s == time + after) by {
            bitseq::lemma_join(time, xor_bits(bucket, xor) + others, rest);
            bitseq::lemma_join(xor_bits(bucket, xor), others, rest);
        }
        lemma_take_point(times, previous, bucket, (points.len() - 1) as nat, point, tail);
        lemma_take_points(next, point.value, bucket_after(bucket, xor), points.skip(1), rest);
        assert(seq![point] + points.skip(1) =~= points);
    }
}

/// The points of a block are read back from what was written for them.
pub proof fn lemma_take_body(points: Seq<Point>, rest: Seq<bool>)
    requires
        points.len() > 0,
    ensures
        take_body(body_bits(points) + rest, points.len()) == Some((points, rest)),
{
    let first = points[0];
    let times = Dod::start(first.timestamp);
    let time = bitseq::varint(bitseq::zigzag_of(first.timestamp) as nat);
    let value = bitseq::bits_of(first.value as nat, 64);
    let others = point_bits(times, first.value, None, points.skip(1));
    let third = others + rest;
    let second = value + third;
    assert(body_bits(points) + rest == time + second) by {
        bitseq::lemma_join(time, value + others, rest);
        bitseq::lemma_join(value, others, rest);
    }
    bitseq::lemma_take_signed(first.timestamp, second);
    lemma2_to64_rest();
    bitseq::lemma_take_bits(first.value, 64, third);
    lemma_take_points(times, first.value, None, points.skip(1), rest);
    assert(seq![first] + points.skip(1) =~= points);
}

/// The points of a block are read back from its stream, whatever follows it.
pub proof fn lemma_roundtrip(points: Seq<Point>, rest: Seq<bool>)
    requires
        points.len() <= u32::MAX,
    ensures
        taken(stream(points) + rest) == Some((points, rest)),
{
    let count = points.len() as u64;
    if points.len() == 0 {
        bitseq::lemma_take_varint(count, rest);
        assert(points =~= Seq::<Point>::empty());
    } else {
        bitseq::lemma_join(bitseq::varint(count as nat), body_bits(points), rest);
        bitseq::lemma_take_varint(count, body_bits(points) + rest);
        lemma_take_body(points, rest);
    }
}

/// Points taken off the front of a stream are taken off the front of any longer one alike, and
/// are as many as were asked for.
proof fn lemma_extend_points(
    times: Dod,
    previous: u64,
    bucket: Option<u64>,
    n: nat,
    s: Seq<bool>,
    more: Seq<bool>,
)
    ensures
        take_points(times, previous, bucket, n, s) matches Some((points, rest)) ==> {
            &&& take_points(times, previous, bucket, n, s + more) == Some((points, rest + more))
            &&& points.len() == n
        },
    decreases n,
{
    if n > 0 {
        dod::lemma_extend_next(times, s, more);
        if let Some((timestamp, rest)) = times.take(s) {
            lemma_extend_xor(bucket, rest, more);
            if let Some(((xor, bucket), rest)) = take_xor(bucket, rest) {
                lemma_extend_points(
                    times.after(timestamp),
                    xor ^ previous,
                    bucket,
                    (n - 1) as nat,
                    rest,
                    more,
                );
            }
        }
    }
}

/// Points taken off the front of a stream are taken off the front of any longer one alike, and
/// are as many as were asked for.
pub proof fn lemma_extend_body(s: Seq<bool>, count: nat, more: Seq<bool>)
    requires
        count > 0,
    ensures
        take_body(s, count) matches Some((points, rest)) ==> {
            &&& take_body(s + more, count) == Some((points, rest + more))
            &&& points.len() == count
        },
{
    bitseq::lemma_extend_varint(s, more);
    if let Some((timestamp, rest)) = bitseq::take_signed(s) {
        bitseq::lemma_extend_bits(rest, 64, more);
        if let Some((value, rest)) = bitseq::take_bits(rest, 64) {
            lemma_extend_points(
                Dod::start(timestamp),
                value,
                None,
                (count - 1) as nat,
                rest,
                more,
            );
        }
    }
}

/// The point count says where a stream ends: what follows it changes nothing, and it stands for
/// as many points as it says.
pub proof fn lemma_count(s: Seq<bool>, more: Seq<bool>)
    ensures
        taken(s) matches Some((points, rest)) ==> {
            &&& taken(s + more) == Some((points, rest + more))
            &&& bitseq::take_varint(s) matches Some((count, _)) && count == points.len()
        },
{
    bitseq::lemma_extend_varint(s, more);
    if let Some((count, rest)) = bitseq::take_varint(s) {
        if count > 0 {
            lemma_extend_body(rest, count as nat, more);
        }
    }
}

/// The count of leading zeros at an index.
fn leading(index: u64) -> (count: u64)
    ensures
        count == leading_at(index),
{
    match index {
        0 => 0,
        1 => 8,
        2 => 12,
        3 => 16,
        4 => 18,
        5 => 20,
        6 => 22,
        _ => 24,
    }
}

/// The index of the count stated for an XOR.
fn index_for(xor: u64) -> (index: u64)
    ensures
        index == index_of(xor),
{
    let mut index: u64 = 7;
    let zeros: u64 = xor.leading_zeros() as u64;
    proof {
        axiom_u64_leading_zeros(xor);
    }
    while leading(index) > zeros
        invariant
            index <= 7,
            zeros == u64_leading_zeros(xor),
            index == 7 || zeros < leading_at((index + 1) as u64),
        decreases index,
    {
        index = index - 1;
    }
    index
}

/// Appends an XOR with its trailing zeros.
pub(crate) fn write_window(w: &mut BitWriter, xor: u64)
    requires
        old(w).wf(),
        xor != 0,
    ensures
        final(w).wf(),
        final(w)@ == old(w)@ + window_bits(xor),
{
    let index: u64 = index_for(xor);
    let trailing: u64 = xor.trailing_zeros() as u64;
    proof {
        lemma_index(xor);
        gorilla::lemma_zeros(xor);
    }
    let width: u64 = 64 - leading(index) - trailing;
    w.write_bits(index, 3);
    w.write_bits(width, 6);
    w.write_bits(xor >> trailing, width as u32);
    assert(w@ =~= old(w)@ + window_bits(xor));
}

/// Appends an XOR down to its last bit, and moves on the count of leading zeros.
pub(crate) fn write_open(w: &mut BitWriter, bucket: &mut Option<u64>, xor: u64)
    requires
        old(w).wf(),
    ensures
        final(w).wf(),
        final(w)@ == old(w)@ + open_bits(*old(bucket), xor),
        *final(bucket) == Some(index_of(xor)),
{
    let index: u64 = index_for(xor);
    let width: u64 = 64 - leading(index);
    let same: bool = match *bucket {
        Some(kept) => kept == index,
        None => false,
    };
    if same {
        w.write_bits(2, 2);
    } else {
        w.write_bits(3, 2);
        w.write_bits(index, 3);
    }
    w.write_bits(xor, width as u32);
    *bucket = Some(index);
    assert(w@ =~= old(w)@ + open_bits(*old(bucket), xor));
}

/// Appends an XOR, and moves on the count of leading zeros.
fn write_xor(w: &mut BitWriter, bucket: &mut Option<u64>, xor: u64)
    requires
        old(w).wf(),
    ensures
        final(w).wf(),
        final(w)@ == old(w)@ + xor_bits(*old(bucket), xor),
        *final(bucket) == bucket_after(*old(bucket), xor),
{
    if xor == 0 {
        w.write_bits(0, 2);
    } else if xor.trailing_zeros() as u64 >= MIN_TRAILING {
        w.write_bits(1, 2);
        write_window(w, xor);
        *bucket = None;
        assert(w@ =~= old(w)@ + xor_bits(*old(bucket), xor));
    } else {
        write_open(w, bucket, xor);
    }
}

/// Appends the points of a block.
pub(crate) fn write_body(w: &mut BitWriter, points: &[Point])
    requires
        old(w).wf(),
        points@.len() > 0,
    ensures
        final(w).wf(),
        final(w)@ == old(w)@ + body_bits(points@),
{
    let ghost goal = w@ + body_bits(points@);
    let first: Point = points[0];
    w.write_varint(crate::bits::zigzag(first.timestamp));
    w.write_bits(first.value, 64);
    let mut times = Dod::new(first.timestamp);
    let mut previous: u64 = first.value;
    let mut bucket: Option<u64> = None;
    let mut i: usize = 1;
    assert(w@ + point_bits(times, previous, bucket, points@.skip(1)) =~= goal);
    while i < points.len()
        invariant
            1 <= i <= points.len(),
            w.wf(),
            w@ + point_bits(times, previous, bucket, points@.skip(i as int)) == goal,
        decreases points.len() - i,
    {
        let point: Point = points[i];
        let ghost before = w@;
        let ghost tail = points@.skip(i as int);
        let ghost state = (times, previous, bucket);
        times.write(w, point.timestamp);
        write_xor(w, &mut bucket, point.value ^ previous);
        previous = point.value;
        i = i + 1;
        assert(tail.skip(1) =~= points@.skip(i as int));
        assert(w@ + point_bits(times, previous, bucket, points@.skip(i as int)) =~= before
            + point_bits(state.0, state.1, state.2, tail));
    }
    assert(points@.skip(i as int).len() == 0);
    assert(w@ =~= goal);
}

/// Reads an XOR with its trailing zeros.
pub(crate) fn read_window(r: &mut BitReader) -> (result: Result<u64, Error>)
    requires
        old(r).wf(),
    ensures
        final(r).wf(),
        crate::bits::reads(take_window(old(r)@), result, final(r)@),
{
    let index: u64 = r.read_bits(3)?;
    let width: u64 = r.read_bits(6)?;
    proof {
        lemma2_to64();
    }
    let leading: u64 = leading(index);
    if width == 0 || leading + width > 64 {
        return Err(Error::MalformedBlock);
    }
    let bits: u64 = r.read_bits(width as u32)?;
    Ok(bits << (64 - leading - width))
}

/// Reads an XOR down to its last bit, and moves on the count of leading zeros.
pub(crate) fn read_open(r: &mut BitReader, fresh: bool, bucket: &mut Option<u64>) -> (result:
    Result<u64, Error>)
    requires
        old(r).wf(),
    ensures
        final(r).wf(),
        match take_open(fresh, *old(bucket), old(r)@) {
            None => result == Err::<u64, Error>(Error::MalformedBlock),
            Some(((xor, index), rest)) => {
                &&& result == Ok::<u64, Error>(xor)
                &&& *final(bucket) == Some(index)
                &&& final(r)@ == rest
            },
        },
{
    let index: u64 = if fresh {
        r.read_bits(3)?
    } else {
        match *bucket {
            None => {
                return Err(Error::MalformedBlock);
            },
            Some(kept) => kept,
        }
    };
    let width: u64 = 64 - leading(index);
    let xor: u64 = r.read_bits(width as u32)?;
    *bucket = Some(index);
    Ok(xor)
}

/// Reads an XOR, and moves on the count of leading zeros.
fn read_xor(r: &mut BitReader, bucket: &mut Option<u64>) -> (result: Result<u64, Error>)
    requires
        old(r).wf(),
    ensures
        final(r).wf(),
        match take_xor(*old(bucket), old(r)@) {
            None => result == Err::<u64, Error>(Error::MalformedBlock),
            Some(((xor, next), rest)) => {
                &&& result == Ok::<u64, Error>(xor)
                &&& *final(bucket) == next
                &&& final(r)@ == rest
            },
        },
{
    let prefix: u64 = r.read_bits(2)?;
    if prefix == 0 {
        return Ok(0);
    }
    if prefix == 1 {
        let xor: u64 = read_window(r)?;
        *bucket = None;
        return Ok(xor);
    }
    read_open(r, prefix == 3, bucket)
}

/// Reads `count` points.
pub(crate) fn read_body(r: &mut BitReader, count: u64) -> (result: Result<Vec<Point>, Error>)
    requires
        old(r).wf(),
        count > 0,
    ensures
        final(r).wf(),
        match take_body(old(r)@, count as nat) {
            None => result == Err::<Vec<Point>, Error>(Error::MalformedBlock),
            Some((points, rest)) => result matches Ok(read) && read@ == points && final(r)@
                == rest,
        },
{
    let ghost goal = take_body(r@, count as nat);
    let timestamp: i64 = r.read_signed()?;
    let value: u64 = r.read_bits(64)?;
    let mut points: Vec<Point> = Vec::new();
    points.push(Point::new(timestamp, value));
    let mut times = Dod::new(timestamp);
    let mut previous: u64 = value;
    let mut bucket: Option<u64> = None;
    let mut left: u64 = count - 1;
    assert(points@ =~= seq![Point { timestamp, value }]);
    while left > 0
        invariant
            goal == take_body(old(r)@, count as nat),
            r.wf(),
            goal == (match take_points(times, previous, bucket, left as nat, r@) {
                None => None,
                Some((more, rest)) => Some((points@ + more, rest)),
            }),
        decreases left,
    {
        let ghost before = points@;
        let timestamp: i64 = times.read(r)?;
        let xor: u64 = read_xor(r, &mut bucket)?;
        previous = xor ^ previous;
        points.push(Point::new(timestamp, previous));
        left = left - 1;
        assert(points@ =~= before + seq![Point { timestamp, value: previous }]);
        proof {
            if let Some((more, rest)) = take_points(times, previous, bucket, left as nat, r@) {
                assert(points@ + more =~= before + (seq![
                    Point { timestamp, value: previous },
                ] + more));
            }
        }
    }
    assert(points@ + Seq::<Point>::empty() =~= points@);
    Ok(points)
}

impl Codec for Chimp {
    open spec fn tag_of(&self, points: Seq<Point>) -> u8 {
        TAG_CHIMP
    }

    open spec fn stream_of(&self, points: Seq<Point>) -> Seq<bool> {
        stream(points)
    }

    open spec fn called(&self) -> Seq<char> {
        "chimp"@
    }

    fn name(&self) -> &'static str {
        "chimp"
    }

    fn encode(&self, points: &[Point]) -> Result<Vec<u8>, Error> {
        codec::check_count(points.len())?;
        let mut w = BitWriter::with_capacity(points.len());
        w.write_varint(points.len() as u64);
        if points.len() > 0 {
            write_body(&mut w, points);
        }
        assert(w@ =~= stream(points@));
        let block: Vec<u8> = codec::seal(TAG_CHIMP, w);
        proof {
            codec::lemma_chimp_lossless(points@, block@);
        }
        Ok(block)
    }
}

/// The points that the body of a Chimp block stands for.
pub fn decode(body: &[u8]) -> (result: Result<Vec<Point>, Error>)
    ensures
        codec::decodes(parsed(bitseq::unpack(body@)), result),
{
    let mut r = BitReader::new(body);
    let count: u64 = r.read_varint()?;
    if count == 0 {
        let points: Vec<Point> = Vec::new();
        assert(points@ =~= Seq::<Point>::empty());
        return Ok(points);
    }
    read_body(&mut r, count)
}

} // verus!
