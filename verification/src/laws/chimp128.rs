//! Chimp128: which earlier value is referred to, by which name, and how the value is then written
//! and read.

use crate::bitseq;
use crate::codec::chimp as plain;
use crate::codec::chimp128;
use crate::codec::chimp128::Chimp128;
use crate::codec::dod;
use crate::codec::dod::Dod;
use crate::codec::Codec;
use crate::laws::chimp;
use crate::laws::decimal as scaled;
use crate::laws::gorilla;
use crate::laws::steps;
use crate::point::Point;
use vstd::arithmetic::div_mod::*;
use vstd::arithmetic::power2::*;
use vstd::prelude::*;

verus! {

/// The values of points.
pub open spec fn values(points: Seq<Point>) -> Seq<u64> {
    points.map_values(|p: Point| p.value)
}

/// Whether two values share their low 14 bits.
pub open spec fn alike(a: u64, b: u64) -> bool {
    a % 16384 == b % 16384
}

/// Whether value `i` is the latest to share its low bits with `value`.
pub open spec fn latest(history: Seq<u64>, value: u64, i: int) -> bool {
    &&& 0 <= i < history.len()
    &&& alike(history[i], value)
    &&& forall|j: int| i < j < history.len() ==> !alike(#[trigger] history[j], value)
}

/// No value after the latest with a key has it, and there is none only where none has it.
proof fn lemma_latest(history: Seq<u64>, value: u64)
    ensures
        match chimp128::last_seen(history, value % 16384) {
            Some(i) => latest(history, value, i as int),
            None => forall|j: int|
                0 <= j < history.len() ==> !alike(#[trigger] history[j], value),
        },
    decreases history.len(),
{
    if history.len() > 0 {
        let before = history.drop_last();
        lemma_latest(before, value);
        let from = match chimp128::last_seen(history, value % 16384) {
            Some(i) => i as int,
            None => -1,
        };
        assert forall|j: int| from < j < history.len() implies !alike(
            #[trigger] history[j],
            value,
        ) by {
            if j < before.len() {
                assert(before[j] == history[j]);
            }
        }
    }
}

/// The value referred to is the latest that shares the low 14 bits, if it is one of the last 128.
pub proof fn law_reference(history: Seq<u64>, value: u64, i: int)
    ensures
        latest(history, value, i) && history.len() - i <= 128 ==> chimp128::reference_of(
            history,
            value,
        ) == Some(i as nat),
        latest(history, value, i) && history.len() - i > 128 ==> chimp128::reference_of(
            history,
            value,
        ) is None,
        (forall|j: int| 0 <= j < history.len() ==> !alike(#[trigger] history[j], value))
            ==> chimp128::reference_of(history, value) is None,
{
    lemma_latest(history, value);
    if let Some(k) = chimp128::last_seen(history, value % 16384) {
        assert(alike(history[k as int], value));
        if latest(history, value, i) {
            assert(alike(history[i], value));
        }
    }
}

/// Each of the last 128 values is named by its place, counted from zero in cycles of 128, and a
/// name that no value has had stands for nothing.
pub proof fn law_name(history: Seq<u64>, i: int, slot: u64)
    ensures
        0 <= i < history.len() <= i + 128 ==> chimp128::slot_of(i as nat) == i % 128
            && chimp128::named(history, (i % 128) as u64) == Some(history[i]),
        history.len() <= slot < 128 ==> chimp128::named(history, slot) is None,
{
    if 0 <= i < history.len() <= i + 128 {
        let back = history.len() - 1 - i;
        lemma_fundamental_div_mod(i, 128);
        lemma_fundamental_div_mod_converse(history.len() - 1 - i % 128, 128, i / 128, back);
    }
    if history.len() <= slot < 128 {
        lemma_fundamental_div_mod_converse(
            history.len() - 1 - slot,
            128,
            -1,
            history.len() + 127 - slot,
        );
    }
}

/// Which count of leading zeros stands behind the last of the points: its own, where it was
/// compared with the value before, and none where it referred to a value by name.
pub open spec fn standing(points: Seq<Point>) -> Option<u64> {
    if points.len() < 2 {
        None
    } else {
        match chimp128::reference_of(values(points.drop_last()), points.last().value) {
            Some(_) => None,
            None => Some(plain::index_of(gorilla::xor(points))),
        }
    }
}

/// What is written for the last value. With a value to refer to: `00` and its name in seven bits
/// where the two are the same, and `01`, its name and the window of their XOR where they are not.
/// With none: the XOR with the value before, down to its last bit.
pub open spec fn written(points: Seq<Point>) -> Seq<bool> {
    let earlier = values(points.drop_last());
    let value = points.last().value;
    match chimp128::reference_of(earlier, value) {
        Some(i) => {
            let name = bitseq::bits_of(i % 128, 7);
            if earlier[i as int] == value {
                seq![false, false] + name
            } else {
                seq![false, true] + name + chimp::windowed(value ^ earlier[i as int])
            }
        },
        None => chimp::unwindowed(standing(points.drop_last()), gorilla::xor(points)),
    }
}

/// The count after points, by the codec's own account of it.
spec fn gathered(history: Seq<u64>, bucket: Option<u64>, points: Seq<Point>) -> Option<u64> {
    if points.len() == 0 {
        bucket
    } else {
        chimp128::bucket_after(history + values(points.drop_last()), points.last().value)
    }
}

/// Appending a point appends the change of its timestamp's step, and what is written for its
/// value.
proof fn lemma_next(
    times: Dod,
    history: Seq<u64>,
    bucket: Option<u64>,
    points: Seq<Point>,
    point: Point,
)
    ensures
        chimp128::point_bits(times, history, bucket, points.push(point)) == chimp128::point_bits(
            times,
            history,
            bucket,
            points,
        ) + (dod::dod_bits(
            steps::reached(times, scaled::times(points)).change(point.timestamp),
        ) + chimp128::value_bits(
            history + values(points),
            gathered(history, bucket, points),
            point.value,
        )),
    decreases points.len(),
{
    let longer = points.push(point);
    let last = dod::dod_bits(
        steps::reached(times, scaled::times(points)).change(point.timestamp),
    ) + chimp128::value_bits(
        history + values(points),
        gathered(history, bucket, points),
        point.value,
    );
    if points.len() == 0 {
        reveal_with_fuel(chimp128::point_bits, 2);
        assert(history + values(points) =~= history);
        assert(longer.skip(1).len() == 0);
        assert(chimp128::point_bits(times, history, bucket, longer) =~= last);
        assert(chimp128::point_bits(times, history, bucket, points) + last =~= last);
    } else {
        let first = points[0];
        let next = times.after(first.timestamp);
        let more = history.push(first.value);
        let after = chimp128::bucket_after(history, first.value);
        let tail = points.skip(1);
        assert(longer.skip(1) =~= tail.push(point));
        lemma_next(next, more, after, tail, point);
        assert(more + values(tail) =~= history + values(points));
        if points.len() == 1 {
            assert(history + values(points.drop_last()) =~= history);
        } else {
            assert(more + values(tail.drop_last()) =~= history + values(points.drop_last()));
        }
        assert(gathered(more, after, tail) == gathered(history, bucket, points));
        assert(scaled::times(points).skip(1) =~= scaled::times(tail));
        steps::lemma_reached_front(times, scaled::times(points));
        let a = dod::dod_bits(times.change(first.timestamp));
        let b = chimp128::value_bits(history, bucket, first.value);
        let c = chimp128::point_bits(next, more, after, tail);
        bitseq::lemma_join(a, b + c, last);
        bitseq::lemma_join(b, c, last);
    }
}

/// What the codec writes for the last value is what is stated above.
proof fn lemma_written(points: Seq<Point>)
    requires
        points.len() > 1,
    ensures
        written(points) == chimp128::value_bits(
            values(points.drop_last()),
            standing(points.drop_last()),
            points.last().value,
        ),
{
    let earlier = values(points.drop_last());
    let value = points.last().value;
    chimp::lemma_prefixes();
    match chimp128::reference_of(earlier, value) {
        None => {
            assert(earlier.last() == points[points.len() - 2].value);
            chimp::lemma_unwindowed(standing(points.drop_last()), gorilla::xor(points));
        },
        Some(i) => {
            let other = earlier[i as int];
            let x = value ^ other;
            assert(x == 0 <==> value == other) by (bit_vector)
                requires
                    x == value ^ other,
            ;
            if x != 0 {
                chimp::lemma_windowed(x);
                bitseq::lemma_join(
                    seq![false, true],
                    bitseq::bits_of(i % 128, 7),
                    chimp::windowed(x),
                );
            }
        },
    }
}

/// One point is its timestamp as a zigzagged varint and the 64 bits of its value. Each further
/// point appends the change of the timestamps' step, and behind it what is written for the value.
pub proof fn law_points(points: Seq<Point>)
    requires
        points.len() > 0,
    ensures
        points.len() == 1 ==> chimp128::body_bits(points) == bitseq::varint(
            bitseq::zigzag_of(points[0].timestamp) as nat,
        ) + bitseq::bits_of(points[0].value as nat, 64),
        points.len() > 1 ==> chimp128::body_bits(points) == chimp128::body_bits(points.drop_last())
            + dod::dod_bits(steps::change(scaled::times(points))) + written(points),
{
    let first = points[0];
    let a = bitseq::varint(bitseq::zigzag_of(first.timestamp) as nat);
    let b = bitseq::bits_of(first.value as nat, 64);
    if points.len() == 1 {
        assert(points.skip(1).len() == 0);
        assert(chimp128::body_bits(points) =~= a + b);
    } else {
        let before = points.drop_last();
        let point = points.last();
        let tail = before.skip(1);
        let state = Dod::start(first.timestamp);
        let start = seq![first.value];
        assert(points.skip(1) =~= tail.push(point));
        lemma_next(state, start, None, tail, point);
        assert(scaled::times(before).skip(1) =~= scaled::times(tail));
        assert(scaled::times(points).drop_last() =~= scaled::times(before));
        steps::lemma_reached(scaled::times(before));
        assert(start + values(tail) =~= values(before));
        if tail.len() > 0 {
            assert(start + values(tail.drop_last()) =~= values(before.drop_last()));
            assert(values(before.drop_last()).last() == before[before.len() - 2].value);
        }
        assert(gathered(start, None, tail) == standing(before));
        lemma_written(points);
        let old = chimp128::point_bits(state, start, None, tail);
        let time = dod::dod_bits(steps::change(scaled::times(points)));
        let value = written(points);
        bitseq::lemma_join(b, old, time + value);
        bitseq::lemma_join(a, b + old, time + value);
        bitseq::lemma_join(a + (b + old), time, value);
    }
}

/// A stream is the count and, if there are any, the points.
pub proof fn law_stream(points: Seq<Point>)
    ensures
        Chimp128.tag_of(points) == 0x03,
        Chimp128.stream_of(points) == chimp128::stream(points),
        points.len() == 0 ==> chimp128::stream(points) == bitseq::varint(0),
        points.len() > 0 ==> chimp128::stream(points) == bitseq::varint(points.len())
            + chimp128::body_bits(points),
{
}

/// Reading a value behind `00` and a name: it is the value named. Behind `01` and a name it is
/// the value named but for the bits of the window that follows. Neither leaves a count standing,
/// and a name that stands for nothing is an error.
pub proof fn law_read_named(history: Seq<u64>, stood: Option<u64>, slot: u64, rest: Seq<bool>)
    requires
        slot < 128,
    ensures
        chimp128::take_value(
            history,
            stood,
            seq![false, false] + (bitseq::bits_of(slot as nat, 7) + rest),
        ) == (match chimp128::named(history, slot) {
            None => None,
            Some(other) => Some(((other, None::<u64>), rest)),
        }),
        chimp128::take_value(
            history,
            stood,
            seq![false, true] + (bitseq::bits_of(slot as nat, 7) + rest),
        ) == (match chimp128::named(history, slot) {
            None => None,
            Some(other) => match plain::take_window(rest) {
                None => None,
                Some((x, rest)) => Some(((x ^ other, None::<u64>), rest)),
            },
        }),
{
    let named = bitseq::bits_of(slot as nat, 7) + rest;
    assert(pow2(2) == 4 && pow2(7) == 128) by {
        lemma2_to64();
    }
    chimp::lemma_prefixes();
    bitseq::lemma_take_bits(0, 2, named);
    bitseq::lemma_take_bits(1, 2, named);
    bitseq::lemma_take_bits(slot, 7, rest);
}

/// Reading a value behind `10` and behind `11`: it is the value before but for the bits that
/// follow, as many as the count that stands leaves, or the count that is stated.
pub proof fn law_read_open(
    history: Seq<u64>,
    stood: Option<u64>,
    index: u64,
    x: u64,
    rest: Seq<bool>,
)
    requires
        index < 8,
        x < pow2((64 - chimp::counts()[index as int]) as nat),
    ensures
        ({
            let width = (64 - chimp::counts()[index as int]) as nat;
            let value = bitseq::bits_of(x as nat, width) + rest;
            &&& chimp128::take_value(history, None, seq![true, false] + rest) is None
            &&& chimp128::take_value(history, Some(index), seq![true, false] + value) == Some(
                ((x ^ history.last(), Some(index)), rest),
            )
            &&& chimp128::take_value(
                history,
                stood,
                seq![true, true] + (bitseq::bits_of(index as nat, 3) + value),
            ) == Some(((x ^ history.last(), Some(index)), rest))
        }),
{
    let width = (64 - chimp::counts()[index as int]) as nat;
    let value = bitseq::bits_of(x as nat, width) + rest;
    assert(pow2(2) == 4 && pow2(3) == 8) by {
        lemma2_to64();
    }
    chimp::lemma_prefixes();
    chimp::law_count(0, index);
    bitseq::lemma_take_bits(2, 2, rest);
    bitseq::lemma_take_bits(2, 2, value);
    bitseq::lemma_take_bits(3, 2, bitseq::bits_of(index as nat, 3) + value);
    bitseq::lemma_take_bits(index, 3, value);
    bitseq::lemma_take_bits(x, width, rest);
}

/// Reading points: the change of the timestamps' step is read first and moves the timestamp on;
/// then the value, which joins those that can be referred to.
pub proof fn law_read_points(
    time: i64,
    step: i64,
    history: Seq<u64>,
    stood: Option<u64>,
    n: nat,
    s: Seq<bool>,
)
    ensures
        chimp128::take_points(Dod { previous: time, delta: step }, history, stood, 0, s) == Some(
            (Seq::<Point>::empty(), s),
        ),
        chimp128::take_points(Dod { previous: time, delta: step }, history, stood, n + 1, s) == (
        match dod::take_dod(s) {
            None => None,
            Some((c, rest)) => match chimp128::take_value(history, stood, rest) {
                None => None,
                Some(((value, stands), rest)) => {
                    let timestamp = time.wrapping_add(step.wrapping_add(c));
                    match chimp128::take_points(
                        Dod { previous: timestamp, delta: timestamp.wrapping_sub(time) },
                        history.push(value),
                        stands,
                        n,
                        rest,
                    ) {
                        None => None,
                        Some((points, rest)) => Some(
                            (seq![Point { timestamp, value }] + points, rest),
                        ),
                    }
                },
            },
        }),
{
}

/// Reading a block: the count, and if there are points the first timestamp, its value whole, and
/// then the others, with only that value to refer to.
pub proof fn law_read(count: u64, t: i64, value: u64, rest: Seq<bool>)
    requires
        count > 0,
    ensures
        chimp128::taken(bitseq::varint(0) + rest) == Some((Seq::<Point>::empty(), rest)),
        chimp128::taken(
            bitseq::varint(count as nat) + (bitseq::varint(bitseq::zigzag_of(t) as nat) + (
            bitseq::bits_of(value as nat, 64) + rest)),
        ) == (match chimp128::take_points(
            Dod { previous: t, delta: 0 },
            seq![value],
            None,
            (count - 1) as nat,
            rest,
        ) {
            None => None,
            Some((points, rest)) => Some((seq![Point { timestamp: t, value }] + points, rest)),
        }),
{
    lemma2_to64_rest();
    let third = bitseq::bits_of(value as nat, 64) + rest;
    let second = bitseq::varint(bitseq::zigzag_of(t) as nat) + third;
    bitseq::lemma_take_varint(0, rest);
    bitseq::lemma_take_varint(count, second);
    bitseq::lemma_take_signed(t, third);
    bitseq::lemma_take_bits(value, 64, rest);
}

} // verus!
