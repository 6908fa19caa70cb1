//! Gorilla: which window stands at a value, how the value is written in it, and what a stream of
//! such values is read as.

use crate::bitseq;
use crate::codec::dod;
use crate::codec::dod::Dod;
use crate::codec::gorilla;
use crate::codec::gorilla::{Gorilla, Window};
use crate::codec::Codec;
use crate::laws::decimal as scaled;
use crate::laws::steps;
use crate::point::Point;
use vstd::arithmetic::power2::*;
use vstd::bits::*;
use vstd::prelude::*;
use vstd::std_specs::bits::*;

verus! {

/// How the last value of a block differs from the one before.
pub open spec fn xor(points: Seq<Point>) -> u64 {
    points[points.len() - 1].value ^ points[points.len() - 2].value
}

/// Whether nothing of `x` lies outside the window with this many bits above and below it.
pub open spec fn inside(window: Option<(int, int)>, x: u64) -> bool {
    match window {
        None => false,
        Some((above, below)) => u64_leading_zeros(x) >= above && u64_trailing_zeros(x) >= below,
    }
}

/// The window that stands behind the last of the points: the one that the last value to need a
/// new one stated, with up to 31 bits above it and all its zeros below it.
pub open spec fn window(points: Seq<Point>) -> Option<(int, int)>
    decreases points.len(),
{
    if points.len() < 2 {
        None
    } else {
        let before = window(points.drop_last());
        let x = xor(points);
        if x == 0 || inside(before, x) {
            before
        } else if u64_leading_zeros(x) > 31 {
            Some((31, u64_trailing_zeros(x) as int))
        } else {
            Some((u64_leading_zeros(x), u64_trailing_zeros(x) as int))
        }
    }
}

/// What is written for the last value: a zero bit for a value that repeats; `10` and what the
/// window holds where the window that stands will do; and `11`, the bits above in five, the width
/// in six, with 64 as zero, and what the window holds where it will not.
pub open spec fn written(points: Seq<Point>) -> Seq<bool> {
    let x = xor(points);
    let (above, below) = window(points)->Some_0;
    let width = (64 - above - below) as nat;
    let held = bitseq::bits_of(x as nat / pow2(below as nat), width);
    if x == 0 {
        seq![false]
    } else if inside(window(points.drop_last()), x) {
        seq![true, false] + held
    } else {
        seq![true, true] + bitseq::bits_of(above as nat, 5) + bitseq::bits_of(width % 64, 6) + held
    }
}

/// A repeated value leaves the window as it was: what a later value is written as does not
/// depend on how many repeats lie before it.
pub proof fn law_repeats(points: Seq<Point>, repeats: Seq<Point>, later: Point)
    requires
        points.len() > 0,
        forall|i: int|
            0 <= i < repeats.len() ==> (#[trigger] repeats[i]).value == points.last().value,
    ensures
        window(points + repeats) == window(points),
        written((points + repeats).push(later)) == written(points.push(later)),
    decreases repeats.len(),
{
    let longer = points + repeats;
    assert(longer.push(later).drop_last() =~= longer);
    assert(points.push(later).drop_last() =~= points);
    if repeats.len() == 0 {
        assert(longer =~= points);
    } else {
        law_repeats(points, repeats.drop_last(), later);
        assert(longer.drop_last() =~= points + repeats.drop_last());
        let v = points.last().value;
        assert(v ^ v == 0) by (bit_vector);
        assert(longer[longer.len() - 2].value == v);
        assert(longer.last() == repeats.last());
        assert(xor(longer) == 0);
    }
    assert(xor(longer.push(later)) == xor(points.push(later)));
}

/// The window after points, by the codec's own account of it.
spec fn gathered(previous: u64, window: Option<Window>, points: Seq<Point>) -> Option<Window>
    decreases points.len(),
{
    if points.len() == 0 {
        window
    } else {
        let prior = if points.len() == 1 {
            previous
        } else {
            points[points.len() - 2].value
        };
        gorilla::window_after(
            gathered(previous, window, points.drop_last()),
            points.last().value ^ prior,
        )
    }
}

/// The window does not depend on which end the points are followed from.
proof fn lemma_gathered_front(previous: u64, window: Option<Window>, points: Seq<Point>)
    requires
        points.len() > 0,
    ensures
        gathered(previous, window, points) == gathered(
            points[0].value,
            gorilla::window_after(window, points[0].value ^ previous),
            points.skip(1),
        ),
    decreases points.len(),
{
    if points.len() == 1 {
        reveal_with_fuel(gathered, 2);
    } else {
        lemma_gathered_front(previous, window, points.drop_last());
        assert(points.drop_last().skip(1) =~= points.skip(1).drop_last());
    }
}

/// The codec's own account of the window is the one above.
proof fn lemma_window(points: Seq<Point>)
    requires
        points.len() > 0,
    ensures
        match gathered(points[0].value, None, points.skip(1)) {
            None => window(points) is None,
            Some(w) => window(points) == Some((w.leading as int, w.trailing as int)) && w.leading
                + w.trailing < 64,
        },
    decreases points.len(),
{
    if points.len() > 1 {
        lemma_window(points.drop_last());
        assert(points.drop_last().skip(1) =~= points.skip(1).drop_last());
        let x = xor(points);
        if x != 0 {
            gorilla::lemma_zeros(x);
        }
    }
}

/// Appending a point appends the change of its timestamp's step, and what is written for its
/// value.
proof fn lemma_next(
    times: Dod,
    previous: u64,
    window: Option<Window>,
    points: Seq<Point>,
    point: Point,
)
    ensures
        gorilla::point_bits(times, previous, window, points.push(point)) == gorilla::point_bits(
            times,
            previous,
            window,
            points,
        ) + (dod::dod_bits(
            steps::reached(times, scaled::times(points)).change(point.timestamp),
        ) + gorilla::xor_bits(
            gathered(previous, window, points),
            point.value ^ (if points.len() == 0 {
                previous
            } else {
                points.last().value
            }),
        )),
    decreases points.len(),
{
    let longer = points.push(point);
    let prior = if points.len() == 0 {
        previous
    } else {
        points.last().value
    };
    let last = dod::dod_bits(
        steps::reached(times, scaled::times(points)).change(point.timestamp),
    ) + gorilla::xor_bits(gathered(previous, window, points), point.value ^ prior);
    if points.len() == 0 {
        reveal_with_fuel(gorilla::point_bits, 2);
        assert(longer.skip(1).len() == 0);
        assert(gorilla::point_bits(times, previous, window, longer) =~= last);
        assert(gorilla::point_bits(times, previous, window, points) + last =~= last);
    } else {
        let first = points[0];
        let x = first.value ^ previous;
        let next = times.after(first.timestamp);
        let after = gorilla::window_after(window, x);
        let tail = points.skip(1);
        assert(longer.skip(1) =~= tail.push(point));
        lemma_next(next, first.value, after, tail, point);
        lemma_gathered_front(previous, window, points);
        assert(scaled::times(points).skip(1) =~= scaled::times(tail));
        steps::lemma_reached_front(times, scaled::times(points));
        let a = dod::dod_bits(times.change(first.timestamp));
        let b = gorilla::xor_bits(window, x);
        let more = gorilla::point_bits(next, first.value, after, tail);
        bitseq::lemma_join(a, b + more, last);
        bitseq::lemma_join(b, more, last);
    }
}

/// What the window holds of an XOR is the XOR without the bits below the window.
proof fn lemma_held(x: u64, below: u64)
    requires
        below < 64,
    ensures
        (x >> below) as nat == x as nat / pow2(below as nat),
{
    lemma_u64_shr_is_div(x, below);
}

/// A stream is the count and the points. One point is its timestamp as a zigzagged varint and the
/// 64 bits of its value. Each further point appends the change of the timestamps' step, and
/// behind it what is written for the value.
pub proof fn law_stream(points: Seq<Point>)
    ensures
        Gorilla.tag_of(points) == 0x00,
        Gorilla.stream_of(points) == gorilla::stream(points),
        points.len() == 0 ==> gorilla::stream(points) == bitseq::varint(0),
        points.len() == 1 ==> gorilla::stream(points) == bitseq::varint(1) + bitseq::varint(
            bitseq::zigzag_of(points[0].timestamp) as nat,
        ) + bitseq::bits_of(points[0].value as nat, 64),
        points.len() > 1 ==> gorilla::stream(points) == bitseq::varint(points.len())
            + gorilla::stream(points.drop_last()).skip(
            bitseq::varint((points.len() - 1) as nat).len() as int,
        ) + dod::dod_bits(steps::change(scaled::times(points))) + written(points),
{
    if points.len() > 0 {
        lemma_body(points);
    }
    if points.len() == 1 {
        let time = bitseq::varint(bitseq::zigzag_of(points[0].timestamp) as nat);
        let value = bitseq::bits_of(points[0].value as nat, 64);
        assert(points.skip(1).len() == 0);
        assert(body(points) =~= time + value);
        bitseq::lemma_join(bitseq::varint(1), time, value);
    }
    if points.len() > 1 {
        let count = bitseq::varint(points.len());
        let time = dod::dod_bits(steps::change(scaled::times(points)));
        lemma_body(points.drop_last());
        lemma_body_next(points);
        bitseq::lemma_join(count, body(points.drop_last()), time);
        bitseq::lemma_join(count, body(points.drop_last()) + time, written(points));
    }
}

/// The points of a stream, without the count.
spec fn body(points: Seq<Point>) -> Seq<bool> {
    let first = points[0];
    bitseq::varint(bitseq::zigzag_of(first.timestamp) as nat) + (bitseq::bits_of(
        first.value as nat,
        64,
    ) + gorilla::point_bits(Dod::start(first.timestamp), first.value, None, points.skip(1)))
}

/// A stream is the count and the points.
proof fn lemma_body(points: Seq<Point>)
    requires
        points.len() > 0,
    ensures
        gorilla::stream(points) == bitseq::varint(points.len()) + body(points),
        gorilla::stream(points).skip(bitseq::varint(points.len()).len() as int) == body(points),
{
    let count = bitseq::varint(points.len());
    assert((count + body(points)).skip(count.len() as int) =~= body(points));
}

/// Appending a point appends its timestamp's change and its value.
proof fn lemma_body_next(points: Seq<Point>)
    requires
        points.len() > 1,
    ensures
        body(points) == body(points.drop_last()) + dod::dod_bits(
            steps::change(scaled::times(points)),
        ) + written(points),
{
    let before = points.drop_last();
    let first = points[0];
    let point = points.last();
    let tail = before.skip(1);
    let state = Dod::start(first.timestamp);
    assert(points.skip(1) =~= tail.push(point));
    lemma_next(state, first.value, None, tail, point);
    assert(scaled::times(before).skip(1) =~= scaled::times(tail));
    assert(scaled::times(points).drop_last() =~= scaled::times(before));
    steps::lemma_reached(scaled::times(before));
    lemma_written(points);
    let a = bitseq::varint(bitseq::zigzag_of(first.timestamp) as nat);
    let b = bitseq::bits_of(first.value as nat, 64);
    let old = gorilla::point_bits(state, first.value, None, tail);
    let time = dod::dod_bits(steps::change(scaled::times(points)));
    let value = written(points);
    assert(state.change(point.timestamp) == point.timestamp.wrapping_sub(
        first.timestamp,
    ).wrapping_sub(0));
    bitseq::lemma_join(b, old, time + value);
    bitseq::lemma_join(a, b + old, time + value);
    bitseq::lemma_join(a + (b + old), time, value);
}

/// What the codec writes for the last value is what is stated above.
proof fn lemma_written(points: Seq<Point>)
    requires
        points.len() > 1,
    ensures
        written(points) == gorilla::xor_bits(
            gathered(points[0].value, None, points.drop_last().skip(1)),
            xor(points),
        ),
{
    let before = points.drop_last();
    let x = xor(points);
    let stood = gathered(points[0].value, None, before.skip(1));
    lemma_window(before);
    if x != 0 {
        gorilla::lemma_zeros(x);
        if gorilla::reusable(stood, x) {
            let w = stood->Some_0;
            lemma_held(x, w.trailing);
            assert(written(points) =~= gorilla::xor_bits(stood, x));
        } else {
            let w = gorilla::window_for(x);
            lemma_held(x, w.trailing);
            assert(written(points) =~= gorilla::xor_bits(stood, x));
        }
    }
}

/// Reading a value behind a zero bit: it repeats, and leaves the window as it was.
pub proof fn law_read_repeat(stood: Option<Window>, rest: Seq<bool>)
    ensures
        gorilla::take_xor(stood, seq![false] + rest) == Some(((0u64, stood), rest)),
{
    bitseq::lemma_take_bit(false, rest);
}

/// Reading a value behind `10`: as many bits as the window that stands has room for, which leave
/// it standing. It is an error if none stands.
pub proof fn law_read_reuse(above: u64, below: u64, held: u64, rest: Seq<bool>)
    requires
        above + below < 64,
        held < pow2((64 - above - below) as nat),
    ensures
        gorilla::take_xor(None, seq![true, false] + rest) is None,
        gorilla::take_xor(
            Some(Window { leading: above, trailing: below }),
            seq![true, false] + (bitseq::bits_of(held as nat, (64 - above - below) as nat) + rest),
        ) == Some(((held << below, Some(Window { leading: above, trailing: below })), rest)),
{
    let value = bitseq::bits_of(held as nat, (64 - above - below) as nat) + rest;
    assert(seq![true, false] + rest =~= seq![true] + (seq![false] + rest));
    bitseq::lemma_take_bit(true, seq![false] + rest);
    bitseq::lemma_take_bit(false, rest);
    assert(seq![true, false] + value =~= seq![true] + (seq![false] + value));
    bitseq::lemma_take_bit(true, seq![false] + value);
    bitseq::lemma_take_bit(false, value);
    bitseq::lemma_take_bits(held, (64 - above - below) as nat, rest);
}

/// Reading a value behind `11`: the bits above a new window in five, its width in six, with zero
/// for 64, and what it holds. The window stands from then on. It is an error if the window does
/// not fit in 64 bits.
pub proof fn law_read_fresh(
    stood: Option<Window>,
    above: u64,
    width: u64,
    held: u64,
    rest: Seq<bool>,
)
    requires
        above < 32,
        0 < width <= 64,
        held < pow2(width as nat),
    ensures
        above + width <= 64 ==> gorilla::take_xor(
            stood,
            seq![true, true] + (bitseq::bits_of(above as nat, 5) + (bitseq::bits_of(
                width as nat % 64,
                6,
            ) + (bitseq::bits_of(held as nat, width as nat) + rest))),
        ) == Some(
            (
                (
                    held << ((64 - above - width) as u64),
                    Some(Window { leading: above, trailing: (64 - above - width) as u64 }),
                ),
                rest,
            ),
        ),
        above + width > 64 ==> gorilla::take_xor(
            stood,
            seq![true, true] + (bitseq::bits_of(above as nat, 5) + (bitseq::bits_of(
                width as nat % 64,
                6,
            ) + rest)),
        ) is None,
{
    let five = bitseq::bits_of(above as nat, 5);
    let six = bitseq::bits_of(width as nat % 64, 6);
    let value = bitseq::bits_of(held as nat, width as nat) + rest;
    bitseq::lemma_take_bits(held, width as nat, rest);
    lemma_read_eleven(stood, five + (six + value));
    lemma_read_window(above, width, value);
    lemma_read_eleven(stood, five + (six + rest));
    lemma_read_window(above, width, rest);
}

/// Behind `11` comes a window.
proof fn lemma_read_eleven(stood: Option<Window>, rest: Seq<bool>)
    ensures
        gorilla::take_xor(stood, seq![true, true] + rest) == (match gorilla::take_fresh(rest) {
            None => None,
            Some(((xor, window), rest)) => Some(((xor, Some(window)), rest)),
        }),
{
    assert(seq![true, true] + rest =~= seq![true] + (seq![true] + rest));
    bitseq::lemma_take_bit(true, seq![true] + rest);
    bitseq::lemma_take_bit(true, rest);
}

/// A window is five bits, six bits, and what it holds.
proof fn lemma_read_window(above: u64, width: u64, rest: Seq<bool>)
    requires
        above < 32,
        0 < width <= 64,
    ensures
        gorilla::take_fresh(
            bitseq::bits_of(above as nat, 5) + (bitseq::bits_of(width as nat % 64, 6) + rest),
        ) == (if above + width > 64 {
            None
        } else {
            match bitseq::take_bits(rest, width as nat) {
                None => None,
                Some((held, rest)) => Some(
                    (
                        (
                            held << ((64 - above - width) as u64),
                            Window { leading: above, trailing: (64 - above - width) as u64 },
                        ),
                        rest,
                    ),
                ),
            }
        }),
{
    let field = (width % 64) as u64;
    assert(pow2(5) == 32 && pow2(6) == 64) by {
        lemma2_to64();
    }
    bitseq::lemma_take_bits(above, 5, bitseq::bits_of(field as nat, 6) + rest);
    bitseq::lemma_take_bits(field, 6, rest);
}

/// Reading points: the change of the timestamps' step is read first and moves the timestamp on;
/// then the value, which is the one before but for the bits of its XOR.
pub proof fn law_read_points(
    last: Point,
    step: i64,
    stood: Option<Window>,
    n: nat,
    s: Seq<bool>,
)
    ensures
        gorilla::take_points(
            Dod { previous: last.timestamp, delta: step },
            last.value,
            stood,
            0,
            s,
        ) == Some((Seq::<Point>::empty(), s)),
        gorilla::take_points(
            Dod { previous: last.timestamp, delta: step },
            last.value,
            stood,
            n + 1,
            s,
        ) == (match dod::take_dod(s) {
            None => None,
            Some((c, rest)) => match gorilla::take_xor(stood, rest) {
                None => None,
                Some(((x, stands), rest)) => {
                    let point = Point {
                        timestamp: last.timestamp.wrapping_add(step.wrapping_add(c)),
                        value: x ^ last.value,
                    };
                    match gorilla::take_points(
                        Dod {
                            previous: point.timestamp,
                            delta: point.timestamp.wrapping_sub(last.timestamp),
                        },
                        point.value,
                        stands,
                        n,
                        rest,
                    ) {
                        None => None,
                        Some((points, rest)) => Some((seq![point] + points, rest)),
                    }
                },
            },
        }),
{
}

/// Reading a block: the count, and if there are points the first timestamp, its value whole, and
/// then the others, with no window standing and no step taken.
pub proof fn law_read(count: u64, t: i64, value: u64, rest: Seq<bool>)
    ensures
        gorilla::taken(bitseq::varint(0) + rest) == Some((Seq::<Point>::empty(), rest)),
        count > 0 ==> gorilla::taken(
            bitseq::varint(count as nat) + (bitseq::varint(bitseq::zigzag_of(t) as nat) + (
            bitseq::bits_of(value as nat, 64) + rest)),
        ) == (match gorilla::take_points(
            Dod { previous: t, delta: 0 },
            value,
            None,
            (count - 1) as nat,
            rest,
        ) {
            None => None,
            Some((points, rest)) => Some((seq![Point { timestamp: t, value }] + points, rest)),
        }),
{
    lemma2_to64_rest();
    let third = bitseq::bits_of(value as nat, 64) + rest;
    let second = bitseq::varint(bitseq::zigzag_of(t) as nat) + third;
    bitseq::lemma_take_varint(0, rest);
    bitseq::lemma_take_varint(count, second);
    bitseq::lemma_take_signed(t, third);
    bitseq::lemma_take_bits(value, 64, rest);
}

} // verus!
