//! Chimp: which count of leading zeros stands at a value, how the value is written under it, and
//! what a stream of such values is read as.

use crate::bitseq;
use crate::codec::chimp;
use crate::codec::chimp::Chimp;
use crate::codec::dod;
use crate::codec::dod::Dod;
use crate::codec::gorilla as windows;
use crate::codec::Codec;
use crate::laws::bits;
use crate::laws::decimal as scaled;
use crate::laws::gorilla;
use crate::laws::steps;
use crate::point::Point;
use vstd::arithmetic::power2::*;
use vstd::bits::*;
use vstd::prelude::*;
use vstd::std_specs::bits::*;

verus! {

/// The counts of leading zeros that can be stated.
pub open spec fn counts() -> Seq<int> {
    seq![0, 8, 12, 16, 18, 20, 22, 24]
}

/// The count stated for an XOR is the largest of the eight that its leading zeros reach.
pub proof fn law_count(x: u64, index: u64)
    ensures
        index < 8 ==> chimp::leading_at(index) == counts()[index as int],
        chimp::index_of(x) < 8,
        counts()[chimp::index_of(x) as int] <= u64_leading_zeros(x),
        chimp::index_of(x) < 7 ==> u64_leading_zeros(x) < counts()[chimp::index_of(x) + 1],
{
    axiom_u64_leading_zeros(x);
}

/// Which count stands behind the last of the points: the one that it stated or was written
/// under, that of the point before where it repeats that one's value, and none where it has more
/// than six trailing zeros.
pub open spec fn standing(points: Seq<Point>) -> Option<u64>
    decreases points.len(),
{
    if points.len() < 2 {
        None
    } else {
        let x = gorilla::xor(points);
        if x == 0 {
            standing(points.drop_last())
        } else if u64_trailing_zeros(x) > 6 {
            None
        } else {
            Some(chimp::index_of(x))
        }
    }
}

/// An XOR with its trailing zeros: the index of its count in three bits, its width in six, and
/// what lies between the zeros.
pub open spec fn windowed(x: u64) -> Seq<bool> {
    let index = chimp::index_of(x);
    let below = u64_trailing_zeros(x) as nat;
    let width = (64 - counts()[index as int] - below) as nat;
    bitseq::bits_of(index as nat, 3) + bitseq::bits_of(width, 6) + bitseq::bits_of(
        x as nat / pow2(below),
        width,
    )
}

/// An XOR down to its last bit: `10` and its bits under the count that stands, where that is its
/// own, and otherwise `11`, the index of its count in three bits, and its bits.
pub open spec fn unwindowed(stood: Option<u64>, x: u64) -> Seq<bool> {
    let index = chimp::index_of(x);
    let value = bitseq::bits_of(x as nat, (64 - counts()[index as int]) as nat);
    if stood == Some(index) {
        seq![true, false] + value
    } else {
        seq![true, true] + bitseq::bits_of(index as nat, 3) + value
    }
}

/// What is written for the last value: `00` for a value that repeats; `01` and the window where
/// there are more than six trailing zeros; and all bits of it where there are not.
pub open spec fn written(points: Seq<Point>) -> Seq<bool> {
    let x = gorilla::xor(points);
    if x == 0 {
        seq![false, false]
    } else if u64_trailing_zeros(x) > 6 {
        seq![false, true] + windowed(x)
    } else {
        unwindowed(standing(points.drop_last()), x)
    }
}

/// The four prefixes.
pub(crate) proof fn lemma_prefixes()
    ensures
        bitseq::bits_of(0, 2) == seq![false, false],
        bitseq::bits_of(1, 2) == seq![false, true],
        bitseq::bits_of(2, 2) == seq![true, false],
        bitseq::bits_of(3, 2) == seq![true, true],
{
    lemma2_to64();
    assert forall|v: nat, i: int| 0 <= i < 2 implies #[trigger] bitseq::bits_of(v, 2)[i] == ((v
        / pow2((1 - i) as nat)) % 2 == 1) by {
        bits::law_bit(v, 2, i);
    }
    assert forall|v: nat| #[trigger] bitseq::bits_of(v, 2).len() == 2 by {
        bitseq::lemma_bits_of_len(v, 2);
    }
    assert(bitseq::bits_of(0, 2) =~= seq![false, false]);
    assert(bitseq::bits_of(1, 2) =~= seq![false, true]);
    assert(bitseq::bits_of(2, 2) =~= seq![true, false]);
    assert(bitseq::bits_of(3, 2) =~= seq![true, true]);
}

/// A window is written as stated above.
pub(crate) proof fn lemma_windowed(x: u64)
    requires
        x != 0,
    ensures
        chimp::window_bits(x) == windowed(x),
{
    law_count(x, chimp::index_of(x));
    windows::lemma_zeros(x);
    let w = chimp::window_of(x);
    lemma_u64_shr_is_div(x, w.trailing);
    bitseq::lemma_join(
        bitseq::bits_of(chimp::index_of(x) as nat, 3),
        bitseq::bits_of(w.width(), 6),
        bitseq::bits_of((x >> w.trailing) as nat, w.width()),
    );
}

/// An XOR down to its last bit is written as stated above.
pub(crate) proof fn lemma_unwindowed(stood: Option<u64>, x: u64)
    ensures
        chimp::open_bits(stood, x) == unwindowed(stood, x),
{
    let index = chimp::index_of(x);
    law_count(x, index);
    lemma_prefixes();
    bitseq::lemma_join(
        seq![true, true],
        bitseq::bits_of(index as nat, 3),
        bitseq::bits_of(x as nat, (64 - chimp::leading_at(index)) as nat),
    );
}

/// The count after points, by the codec's own account of it.
spec fn gathered(previous: u64, bucket: Option<u64>, points: Seq<Point>) -> Option<u64>
    decreases points.len(),
{
    if points.len() == 0 {
        bucket
    } else {
        let prior = if points.len() == 1 {
            previous
        } else {
            points[points.len() - 2].value
        };
        chimp::bucket_after(
            gathered(previous, bucket, points.drop_last()),
            points.last().value ^ prior,
        )
    }
}

/// The count does not depend on which end the points are followed from.
proof fn lemma_gathered_front(previous: u64, bucket: Option<u64>, points: Seq<Point>)
    requires
        points.len() > 0,
    ensures
        gathered(previous, bucket, points) == gathered(
            points[0].value,
            chimp::bucket_after(bucket, points[0].value ^ previous),
            points.skip(1),
        ),
    decreases points.len(),
{
    if points.len() == 1 {
        reveal_with_fuel(gathered, 2);
    } else {
        lemma_gathered_front(previous, bucket, points.drop_last());
        assert(points.drop_last().skip(1) =~= points.skip(1).drop_last());
    }
}

/// The codec's own account of the count is the one above.
proof fn lemma_standing(points: Seq<Point>)
    requires
        points.len() > 0,
    ensures
        gathered(points[0].value, None, points.skip(1)) == standing(points),
    decreases points.len(),
{
    if points.len() > 1 {
        lemma_standing(points.drop_last());
        assert(points.drop_last().skip(1) =~= points.skip(1).drop_last());
    }
}

/// Appending a point appends the change of its timestamp's step, and what is written for its
/// value.
proof fn lemma_next(
    times: Dod,
    previous: u64,
    bucket: Option<u64>,
    points: Seq<Point>,
    point: Point,
)
    ensures
        chimp::point_bits(times, previous, bucket, points.push(point)) == chimp::point_bits(
            times,
            previous,
            bucket,
            points,
        ) + (dod::dod_bits(
            steps::reached(times, scaled::times(points)).change(point.timestamp),
        ) + chimp::xor_bits(
            gathered(previous, bucket, points),
            point.value ^ (if points.len() == 0 {
                previous
            } else {
                points.last().value
            }),
        )),
    decreases points.len(),
{
    let longer = points.push(point);
    let prior = if points.len() == 0 {
        previous
    } else {
        points.last().value
    };
    let last = dod::dod_bits(
        steps::reached(times, scaled::times(points)).change(point.timestamp),
    ) + chimp::xor_bits(gathered(previous, bucket, points), point.value ^ prior);
    if points.len() == 0 {
        reveal_with_fuel(chimp::point_bits, 2);
        assert(longer.skip(1).len() == 0);
        assert(chimp::point_bits(times, previous, bucket, longer) =~= last);
        assert(chimp::point_bits(times, previous, bucket, points) + last =~= last);
    } else {
        let first = points[0];
        let x = first.value ^ previous;
        let next = times.after(first.timestamp);
        let after = chimp::bucket_after(bucket, x);
        let tail = points.skip(1);
        assert(longer.skip(1) =~= tail.push(point));
        lemma_next(next, first.value, after, tail, point);
        lemma_gathered_front(previous, bucket, points);
        assert(scaled::times(points).skip(1) =~= scaled::times(tail));
        steps::lemma_reached_front(times, scaled::times(points));
        let a = dod::dod_bits(times.change(first.timestamp));
        let b = chimp::xor_bits(bucket, x);
        let more = chimp::point_bits(next, first.value, after, tail);
        bitseq::lemma_join(a, b + more, last);
        bitseq::lemma_join(b, more, last);
    }
}

/// What the codec writes for the last value is what is stated above.
proof fn lemma_written(points: Seq<Point>)
    requires
        points.len() > 1,
    ensures
        written(points) == chimp::xor_bits(
            gathered(points[0].value, None, points.drop_last().skip(1)),
            gorilla::xor(points),
        ),
{
    let x = gorilla::xor(points);
    lemma_standing(points.drop_last());
    lemma_prefixes();
    if x != 0 {
        lemma_windowed(x);
        lemma_unwindowed(standing(points.drop_last()), x);
    }
}

/// One point is its timestamp as a zigzagged varint and the 64 bits of its value. Each further
/// point appends the change of the timestamps' step, and behind it what is written for the value.
pub proof fn law_points(points: Seq<Point>)
    requires
        points.len() > 0,
    ensures
        points.len() == 1 ==> chimp::body_bits(points) == bitseq::varint(
            bitseq::zigzag_of(points[0].timestamp) as nat,
        ) + bitseq::bits_of(points[0].value as nat, 64),
        points.len() > 1 ==> chimp::body_bits(points) == chimp::body_bits(points.drop_last())
            + dod::dod_bits(steps::change(scaled::times(points))) + written(points),
{
    let first = points[0];
    let a = bitseq::varint(bitseq::zigzag_of(first.timestamp) as nat);
    let b = bitseq::bits_of(first.value as nat, 64);
    if points.len() == 1 {
        assert(points.skip(1).len() == 0);
        assert(chimp::body_bits(points) =~= a + b);
    } else {
        let before = points.drop_last();
        let point = points.last();
        let tail = before.skip(1);
        let state = Dod::start(first.timestamp);
        assert(points.skip(1) =~= tail.push(point));
        lemma_next(state, first.value, None, tail, point);
        assert(scaled::times(before).skip(1) =~= scaled::times(tail));
        assert(scaled::times(points).drop_last() =~= scaled::times(before));
        steps::lemma_reached(scaled::times(before));
        lemma_written(points);
        let old = chimp::point_bits(state, first.value, None, tail);
        let time = dod::dod_bits(steps::change(scaled::times(points)));
        let value = written(points);
        bitseq::lemma_join(b, old, time + value);
        bitseq::lemma_join(a, b + old, time + value);
        bitseq::lemma_join(a + (b + old), time, value);
    }
}

/// A stream is the count and, if there are any, the points.
pub proof fn law_stream(points: Seq<Point>)
    ensures
        Chimp.tag_of(points) == 0x02,
        Chimp.stream_of(points) == chimp::stream(points),
        points.len() == 0 ==> chimp::stream(points) == bitseq::varint(0),
        points.len() > 0 ==> chimp::stream(points) == bitseq::varint(points.len())
            + chimp::body_bits(points),
{
}

/// A repeated value leaves the count as it was.
pub proof fn law_repeats(points: Seq<Point>, repeats: Seq<Point>, later: Point)
    requires
        points.len() > 0,
        forall|i: int|
            0 <= i < repeats.len() ==> (#[trigger] repeats[i]).value == points.last().value,
    ensures
        standing(points + repeats) == standing(points),
        written((points + repeats).push(later)) == written(points.push(later)),
    decreases repeats.len(),
{
    let longer = points + repeats;
    assert(longer.push(later).drop_last() =~= longer);
    assert(points.push(later).drop_last() =~= points);
    if repeats.len() == 0 {
        assert(longer =~= points);
    } else {
        law_repeats(points, repeats.drop_last(), later);
        assert(longer.drop_last() =~= points + repeats.drop_last());
        let v = points.last().value;
        assert(v ^ v == 0) by (bit_vector);
        assert(longer[longer.len() - 2].value == v);
        assert(longer.last() == repeats.last());
        assert(gorilla::xor(longer) == 0);
    }
    assert(gorilla::xor(longer.push(later)) == gorilla::xor(points.push(later)));
}

/// Reading a value behind `00`: it repeats, and leaves the count as it was.
pub proof fn law_read_repeat(stood: Option<u64>, rest: Seq<bool>)
    ensures
        chimp::take_xor(stood, seq![false, false] + rest) == Some(((0u64, stood), rest)),
{
    lemma2_to64();
    lemma_prefixes();
    bitseq::lemma_take_bits(0, 2, rest);
}

/// Reading a window: three bits for the count, six for the width, and what lies between the
/// zeros. It is an error if the window is empty or does not fit in 64 bits. Behind `01` it leaves
/// no count standing.
pub proof fn law_read_window(
    stood: Option<u64>,
    index: u64,
    width: u64,
    held: u64,
    rest: Seq<bool>,
)
    requires
        index < 8,
        width < 64,
        held < pow2(width as nat),
    ensures
        ({
            let s = bitseq::bits_of(index as nat, 3) + (bitseq::bits_of(width as nat, 6) + (
            bitseq::bits_of(held as nat, width as nat) + rest));
            let below = (64 - counts()[index as int] - width) as u64;
            let bad = width == 0 || counts()[index as int] + width > 64;
            &&& bad ==> chimp::take_window(s) is None
            &&& bad ==> chimp::take_xor(stood, seq![false, true] + s) is None
            &&& !bad ==> chimp::take_window(s) == Some((held << below, rest))
            &&& !bad ==> chimp::take_xor(stood, seq![false, true] + s) == Some(
                ((held << below, None::<u64>), rest),
            )
        }),
{
    let value = bitseq::bits_of(held as nat, width as nat) + rest;
    let second = bitseq::bits_of(width as nat, 6) + value;
    let s = bitseq::bits_of(index as nat, 3) + second;
    assert(pow2(2) == 4 && pow2(3) == 8 && pow2(6) == 64) by {
        lemma2_to64();
    }
    lemma_prefixes();
    law_count(0, index);
    bitseq::lemma_take_bits(1, 2, s);
    bitseq::lemma_take_bits(index, 3, second);
    bitseq::lemma_take_bits(width, 6, value);
    bitseq::lemma_take_bits(held, width as nat, rest);
}

/// Reading a value behind `10`: as many bits as the count that stands leaves, and it stays. It is
/// an error if none stands. Behind `11` come three bits for a new count, and the bits it leaves.
pub proof fn law_read_open(stood: Option<u64>, index: u64, x: u64, rest: Seq<bool>)
    requires
        index < 8,
        x < pow2((64 - counts()[index as int]) as nat),
    ensures
        ({
            let value = bitseq::bits_of(x as nat, (64 - counts()[index as int]) as nat) + rest;
            &&& chimp::take_xor(None, seq![true, false] + rest) is None
            &&& chimp::take_xor(Some(index), seq![true, false] + value) == Some(
                ((x, Some(index)), rest),
            )
            &&& chimp::take_xor(
                stood,
                seq![true, true] + (bitseq::bits_of(index as nat, 3) + value),
            ) == Some(((x, Some(index)), rest))
        }),
{
    let width = (64 - counts()[index as int]) as nat;
    let value = bitseq::bits_of(x as nat, width) + rest;
    assert(pow2(2) == 4 && pow2(3) == 8) by {
        lemma2_to64();
    }
    lemma_prefixes();
    law_count(0, index);
    bitseq::lemma_take_bits(2, 2, rest);
    bitseq::lemma_take_bits(2, 2, value);
    bitseq::lemma_take_bits(3, 2, bitseq::bits_of(index as nat, 3) + value);
    bitseq::lemma_take_bits(index, 3, value);
    bitseq::lemma_take_bits(x, width, rest);
}

/// Reading points: the change of the timestamps' step is read first and moves the timestamp on;
/// then the value, which is the one before but for the bits of its XOR.
pub proof fn law_read_points(last: Point, step: i64, stood: Option<u64>, n: nat, s: Seq<bool>)
    ensures
        chimp::take_points(
            Dod { previous: last.timestamp, delta: step },
            last.value,
            stood,
            0,
            s,
        ) == Some((Seq::<Point>::empty(), s)),
        chimp::take_points(
            Dod { previous: last.timestamp, delta: step },
            last.value,
            stood,
            n + 1,
            s,
        ) == (match dod::take_dod(s) {
            None => None,
            Some((c, rest)) => match chimp::take_xor(stood, rest) {
                None => None,
                Some(((x, stands), rest)) => {
                    let point = Point {
                        timestamp: last.timestamp.wrapping_add(step.wrapping_add(c)),
                        value: x ^ last.value,
                    };
                    match chimp::take_points(
                        Dod {
                            previous: point.timestamp,
                            delta: point.timestamp.wrapping_sub(last.timestamp),
                        },
                        point.value,
                        stands,
                        n,
                        rest,
                    ) {
                        None => None,
                        Some((points, rest)) => Some((seq![point] + points, rest)),
                    }
                },
            },
        }),
{
}

/// Reading a block: the count, and if there are points the first timestamp, its value whole, and
/// then the others, with no count of zeros standing and no step taken.
pub proof fn law_read(count: u64, t: i64, value: u64, rest: Seq<bool>)
    requires
        count > 0,
    ensures
        chimp::taken(bitseq::varint(0) + rest) == Some((Seq::<Point>::empty(), rest)),
        ({
            let s = bitseq::varint(bitseq::zigzag_of(t) as nat) + (bitseq::bits_of(
                value as nat,
                64,
            ) + rest);
            &&& chimp::taken(bitseq::varint(count as nat) + s) == chimp::take_body(s, count as nat)
            &&& chimp::take_body(s, count as nat) == (match chimp::take_points(
                Dod { previous: t, delta: 0 },
                value,
                None,
                (count - 1) as nat,
                rest,
            ) {
                None => None,
                Some((points, rest)) => Some((seq![Point { timestamp: t, value }] + points, rest)),
            })
        }),
{
    lemma2_to64_rest();
    let third = bitseq::bits_of(value as nat, 64) + rest;
    let second = bitseq::varint(bitseq::zigzag_of(t) as nat) + third;
    bitseq::lemma_take_varint(0, rest);
    bitseq::lemma_take_varint(count, second);
    bitseq::lemma_take_signed(t, third);
    bitseq::lemma_take_bits(value, 64, rest);
}

} // verus!
