//! Packed: how differences are cut into vectors, what a vector stores, and what an exponent is
//! priced at.

use crate::bitseq;
use crate::codec::alp as patching;
use crate::codec::decimal;
use crate::codec::dod;
use crate::codec::dod::Dod;
use crate::codec::gorilla;
use crate::codec::packed;
use crate::codec::packed::Packed;
use crate::codec::Codec;
use crate::laws::alp;
use crate::laws::decimal as scaled;
use crate::point::Point;
use vstd::arithmetic::power2::*;
use vstd::prelude::*;

verus! {

/// The differences of a run of integers, one fewer than there are integers.
pub proof fn law_differences(ns: Seq<i64>, i: int)
    requires
        ns.len() > 0,
    ensures
        packed::deltas_of(ns).len() == ns.len() - 1,
        0 <= i < ns.len() - 1 ==> packed::deltas_of(ns)[i] == ns[i + 1].wrapping_sub(ns[i]),
{
}

/// A vector holds 1024 differences, and the last one what is left: up to 1024 differences are one
/// vector, and of more the first 1024 are a vector of their own, whatever comes after them.
pub proof fn law_vectors(deltas: Seq<i64>)
    ensures
        deltas.len() == 0 ==> packed::packed_bits(deltas).len() == 0,
        1 <= deltas.len() <= 1024 ==> packed::packed_bits(deltas) == packed::vector_bits(deltas),
        deltas.len() > 1024 ==> packed::packed_bits(deltas) == packed::vector_bits(
            deltas.take(1024),
        ) + packed::packed_bits(deltas.skip(1024)),
{
    if 1 <= deltas.len() <= 1024 {
        let len = deltas.len() as int;
        reveal_with_fuel(packed::packed_bits, 2);
        assert(deltas.take(len) =~= deltas);
        assert(deltas.skip(len).len() == 0);
        assert(packed::packed_bits(deltas) =~= packed::vector_bits(deltas));
    }
}

/// What lies past the first 1024 differences does not change how those are written.
pub proof fn law_outlier(deltas: Seq<i64>, others: Seq<i64>)
    requires
        deltas.len() > 1024,
        others.len() > 1024,
        deltas.take(1024) == others.take(1024),
    ensures
        packed::packed_bits(deltas).take(packed::vector_bits(deltas.take(1024)).len() as int)
            == packed::packed_bits(others).take(
            packed::vector_bits(deltas.take(1024)).len() as int,
        ),
        packed::packed_bits(deltas).len() >= packed::vector_bits(deltas.take(1024)).len(),
{
    law_vectors(deltas);
    law_vectors(others);
    let first = packed::vector_bits(deltas.take(1024));
    assert(packed::packed_bits(deltas).take(first.len() as int) =~= first);
    assert(packed::packed_bits(others).take(first.len() as int) =~= first);
}

/// Whether `least` and `width` frame a vector: no value is smaller than `least`, which is one of
/// them, and `width` is the fewest bits in which all distances from it can be written.
pub open spec fn frames(vector: Seq<i64>, least: i64, width: nat) -> bool {
    &&& vector.contains(least)
    &&& forall|i: int|
        0 <= i < vector.len() ==> least <= #[trigger] vector[i] && vector[i] - least < pow2(width)
    &&& width > 0 ==> exists|i: int|
        0 <= i < vector.len() && #[trigger] vector[i] - least >= pow2((width - 1) as nat)
}

/// There is one frame to a vector, and it is the one that is stored.
pub proof fn law_frame(vector: Seq<i64>, least: i64, width: nat)
    requires
        vector.len() > 0,
    ensures
        frames(vector, packed::least(vector), packed::width_of(vector)),
        frames(vector, least, width) ==> least == packed::least(vector) && width
            == packed::width_of(vector),
        packed::width_of(vector) <= 64,
{
    packed::lemma_frame(vector);
    let low = packed::least(vector);
    let wide = packed::width_of(vector);
    if frames(vector, least, width) {
        let a = choose|i: int| 0 <= i < vector.len() && vector[i] == low;
        let b = choose|i: int| 0 <= i < vector.len() && vector[i] == least;
        assert(vector[a] == low && vector[b] == least);
        if width < wide {
            let i = choose|i: int|
                0 <= i < vector.len() && #[trigger] vector[i] - low >= pow2((wide - 1) as nat);
            if width < wide - 1 {
                lemma_pow2_strictly_increases(width, (wide - 1) as nat);
            }
            assert(vector[i] - least < pow2(width));
        }
        if wide < width {
            let i = choose|i: int|
                0 <= i < vector.len() && #[trigger] vector[i] - least >= pow2((width - 1) as nat);
            if wide < width - 1 {
                lemma_pow2_strictly_increases(wide, (width - 1) as nat);
            }
            assert(vector[i] - low < pow2(wide));
        }
    }
}

/// Appending a value appends its distance.
proof fn lemma_residual_next(vector: Seq<i64>, least: i64, width: nat, value: i64)
    ensures
        packed::residual_bits(vector.push(value), least, width) == packed::residual_bits(
            vector,
            least,
            width,
        ) + bitseq::bits_of((value - least) as nat, width),
    decreases vector.len(),
{
    let longer = vector.push(value);
    let last = bitseq::bits_of((value - least) as nat, width);
    if vector.len() == 0 {
        reveal_with_fuel(packed::residual_bits, 2);
        assert(longer.skip(1).len() == 0);
        assert(packed::residual_bits(longer, least, width) =~= last);
        assert(packed::residual_bits(vector, least, width) + last =~= last);
    } else {
        assert(longer.skip(1) =~= vector.skip(1).push(value));
        lemma_residual_next(vector.skip(1), least, width, value);
        bitseq::lemma_join(
            bitseq::bits_of((vector[0] - least) as nat, width),
            packed::residual_bits(vector.skip(1), least, width),
            last,
        );
    }
}

/// A vector is its least value as a zigzagged varint, its width in seven bits, and then, in that
/// width each, the distances of its values from the least, in order.
pub proof fn law_vector(vector: Seq<i64>, least: i64, width: nat)
    requires
        vector.len() > 0,
        frames(vector, least, width),
    ensures
        packed::vector_bits(vector) == bitseq::varint(bitseq::zigzag_of(least) as nat)
            + bitseq::bits_of(width, 7) + packed::residual_bits(vector, least, width),
        packed::residual_bits(Seq::empty(), least, width).len() == 0,
        packed::residual_bits(vector, least, width) == packed::residual_bits(
            vector.drop_last(),
            least,
            width,
        ) + bitseq::bits_of((vector.last() - least) as nat, width),
{
    law_frame(vector, least, width);
    assert(vector =~= vector.drop_last().push(vector.last()));
    lemma_residual_next(vector.drop_last(), least, width, vector.last());
    bitseq::lemma_join(
        bitseq::varint(bitseq::zigzag_of(least) as nat),
        bitseq::bits_of(width, 7),
        packed::residual_bits(vector, least, width),
    );
}

/// Distance `i` of a vector lies `i` widths behind its header.
pub proof fn law_distance(vector: Seq<i64>, least: i64, width: nat, i: int)
    requires
        0 <= i < vector.len(),
    ensures
        packed::residual_bits(vector, least, width).len() == width * vector.len(),
        0 <= i * width <= i * width + width <= width * vector.len(),
        packed::residual_bits(vector, least, width).subrange(i * width, i * width + width)
            == bitseq::bits_of((vector[i] - least) as nat, width),
    decreases vector.len(),
{
    let before = vector.drop_last();
    let last = bitseq::bits_of((vector.last() - least) as nat, width);
    assert(vector =~= before.push(vector.last()));
    lemma_residual_next(before, least, width, vector.last());
    bitseq::lemma_bits_of_len((vector.last() - least) as nat, width);
    assert(width * vector.len() == width * (vector.len() - 1) + width) by (nonlinear_arith);
    let whole = packed::residual_bits(vector, least, width);
    if before.len() == 0 {
        assert(width * 0 == 0 && 0 * width == 0);
        assert(whole.subrange(0, width as int) =~= last);
    } else if i == vector.len() - 1 {
        law_distance(before, least, width, 0);
        assert(i * width == width * i) by (nonlinear_arith);
        assert(whole.subrange(i * width, i * width + width) =~= last);
    } else {
        law_distance(before, least, width, i);
        assert(whole.subrange(i * width, i * width + width) =~= packed::residual_bits(
            before,
            least,
            width,
        ).subrange(i * width, i * width + width));
    }
}

/// The points of a block: the first timestamp and the first integer as zigzagged varints, then
/// all other timestamps, then the differences of the integers.
pub proof fn law_points(ts: Seq<i64>, ns: Seq<i64>)
    ensures
        packed::body_bits(ts, ns) == bitseq::varint(bitseq::zigzag_of(ts[0]) as nat)
            + bitseq::varint(bitseq::zigzag_of(ns[0]) as nat) + dod::stream_bits(
            Dod::start(ts[0]),
            ts.skip(1),
        ) + packed::packed_bits(packed::deltas_of(ns)),
{
    assert(packed::body_bits(ts, ns) =~= bitseq::varint(bitseq::zigzag_of(ts[0]) as nat)
        + bitseq::varint(bitseq::zigzag_of(ns[0]) as nat) + dod::stream_bits(
        Dod::start(ts[0]),
        ts.skip(1),
    ) + packed::packed_bits(packed::deltas_of(ns)));
}

/// What a run of up to 1025 points is priced at: 72 to each reading that does not scale, and if
/// there are differences a word, seven bits and their width to each of them.
pub open spec fn price(run: Seq<Point>, e: nat) -> nat {
    (if run.len() < 2 {
        0nat
    } else {
        packed::width_of(packed::deltas_of(patching::integers_of(run, e))) * (run.len() - 1) as nat
            + 64 + 7
    }) + 72 * alp::misfits(run, e)
}

/// A run of up to 1025 points is priced as one vector.
proof fn lemma_price(run: Seq<Point>, e: nat)
    requires
        run.len() <= 1025,
    ensures
        packed::cost_of(run, e) == price(run, e),
{
    let deltas = packed::deltas_of(patching::integers_of(run, e));
    let len = deltas.len() as int;
    alp::lemma_misfits(run, e);
    reveal_with_fuel(packed::vectors_cost, 2);
    assert(deltas.take(len) =~= deltas);
    assert(deltas.skip(len).len() == 0);
}

/// A block of up to 512 points is priced whole. A longer one is priced by four runs of 128
/// points, at the starts of its four quarters, all four together.
pub proof fn law_price(points: Seq<Point>, e: nat)
    ensures
        points.len() <= 1025 ==> packed::cost_of(points, e) == price(points, e),
        points.len() <= 512 ==> packed::sample_cost(points, e) == price(points, e),
        points.len() > 512 ==> ({
            let quarter = points.len() as int / 4;
            packed::sample_cost(points, e) == price(points.subrange(0, 128), e) + price(
                points.subrange(quarter, quarter + 128),
                e,
            ) + price(points.subrange(2 * quarter, 2 * quarter + 128), e) + price(
                points.subrange(3 * quarter, 3 * quarter + 128),
                e,
            )
        }),
{
    let runs = patching::runs_of(points);
    let cost = |run: Seq<Point>| packed::cost_of(run, e);
    if points.len() <= 1025 {
        lemma_price(points, e);
    }
    if points.len() > 512 {
        let quarter = points.len() as int / 4;
        alp::lemma_four(runs, cost);
        assert(runs[0] == points.subrange(0, 128));
        assert(runs[1] == points.subrange(quarter, quarter + 128));
        assert(runs[2] == points.subrange(2 * quarter, 2 * quarter + 128));
        assert(runs[3] == points.subrange(3 * quarter, 3 * quarter + 128));
        lemma_price(runs[0], e);
        lemma_price(runs[1], e);
        lemma_price(runs[2], e);
        lemma_price(runs[3], e);
    } else {
        patching::lemma_short_block(points, cost);
    }
}

/// The exponent is one of 0 to 17, none of those has a lower price, and none smaller has the same.
pub proof fn law_exponent(points: Seq<Point>, e: nat)
    requires
        e <= 17,
    ensures
        packed::exponent_of(points) <= 17,
        packed::sample_cost(points, packed::exponent_of(points)) <= packed::sample_cost(points, e),
        e < packed::exponent_of(points) ==> packed::sample_cost(
            points,
            packed::exponent_of(points),
        ) < packed::sample_cost(points, e),
{
    packed::lemma_exponent(points);
}

/// A block is a packed block exactly when at most one reading in four, of all its readings, does
/// not scale at its exponent; otherwise it is the Gorilla block of the same points.
pub proof fn law_tag(points: Seq<Point>)
    ensures
        Packed.tag_of(points) == 0x06 <==> 4 * alp::misfits(points, packed::exponent_of(points))
            <= points.len(),
        Packed.tag_of(points) != 0x06 ==> Packed.tag_of(points) == 0x00 && Packed.stream_of(points)
            == gorilla::stream(points),
{
    alp::law_too_many(points, packed::exponent_of(points));
}

/// The stream of a packed block: the count, the exponent in eight bits, and if there are points
/// the patch list, then the timestamps and the integers.
pub proof fn law_stream(points: Seq<Point>)
    requires
        Packed.tag_of(points) == 0x06,
    ensures
        points.len() == 0 ==> Packed.stream_of(points) == bitseq::varint(0) + bitseq::bits_of(
            packed::exponent_of(points),
            8,
        ),
        points.len() > 0 ==> Packed.stream_of(points) == bitseq::varint(points.len())
            + bitseq::bits_of(packed::exponent_of(points), 8) + patching::list_bits(
            patching::exceptions_of(points, packed::exponent_of(points)),
        ) + packed::body_bits(
            scaled::times(points),
            patching::integers_of(points, packed::exponent_of(points)),
        ),
{
    let e = packed::exponent_of(points);
    assert(crate::codec::timestamps(points) =~= scaled::times(points));
    if points.len() > 0 {
        bitseq::lemma_join(
            bitseq::varint(points.len()) + bitseq::bits_of(e, 8),
            patching::list_bits(patching::exceptions_of(points, e)),
            packed::body_bits(scaled::times(points), patching::integers_of(points, e)),
        );
    }
}

/// Reading vectors: a width over 64 is an error. Behind the header of a vector come 1024
/// distances, or as many as are left; the next vector goes on from the last integer.
pub proof fn law_read_vectors(
    remaining: nat,
    least: i64,
    width: u64,
    previous: i64,
    rest: Seq<bool>,
)
    requires
        remaining > 0,
        width < 128,
    ensures
        packed::take_vectors(rest, 0, previous) == Some((Seq::<i64>::empty(), rest)),
        packed::take_vectors(
            bitseq::varint(bitseq::zigzag_of(least) as nat) + (bitseq::bits_of(width as nat, 7)
                + rest),
            remaining,
            previous,
        ) == (if width > 64 {
            None
        } else if remaining <= 1024 {
            packed::take_residuals(rest, remaining, least, width as nat, previous)
        } else {
            match packed::take_residuals(rest, 1024, least, width as nat, previous) {
                None => None,
                Some((values, rest)) => match packed::take_vectors(
                    rest,
                    (remaining - 1024) as nat,
                    values.last(),
                ) {
                    None => None,
                    Some((more, rest)) => Some((values + more, rest)),
                },
            }
        }),
{
    lemma2_to64();
    bitseq::lemma_take_signed(least, bitseq::bits_of(width as nat, 7) + rest);
    bitseq::lemma_take_bits(width, 7, rest);
    if remaining <= 1024 {
        reveal_with_fuel(packed::take_vectors, 2);
        if let Some((values, rest)) = packed::take_residuals(
            rest,
            remaining,
            least,
            width as nat,
            previous,
        ) {
            assert(values + Seq::<i64>::empty() =~= values);
        }
    }
}

/// Reading the values of a vector: each moves on from the one before by the least value and by
/// the distance that is stored for it.
pub proof fn law_read_distance(
    n: nat,
    least: i64,
    width: nat,
    distance: u64,
    previous: i64,
    rest: Seq<bool>,
)
    requires
        width <= 64,
        distance < pow2(width),
    ensures
        packed::take_residuals(rest, 0, least, width, previous) == Some(
            (Seq::<i64>::empty(), rest),
        ),
        ({
            let step = (if distance < 0x8000_0000_0000_0000 {
                distance as int
            } else {
                distance - 0x1_0000_0000_0000_0000
            }) as i64;
            let next = previous.wrapping_add(least.wrapping_add(step));
            packed::take_residuals(
                bitseq::bits_of(distance as nat, width) + rest,
                n + 1,
                least,
                width,
                previous,
            ) == (match packed::take_residuals(rest, n, least, width, next) {
                None => None,
                Some((more, rest)) => Some((seq![next] + more, rest)),
            })
        }),
{
    bitseq::lemma_take_bits(distance, width, rest);
}

/// Reading the points of a block: the first timestamp, the first integer, all other timestamps,
/// and then all other integers.
pub proof fn law_read_points(count: nat, t: i64, n: i64, rest: Seq<bool>)
    requires
        count > 0,
    ensures
        packed::take_body(
            bitseq::varint(bitseq::zigzag_of(t) as nat) + (bitseq::varint(
                bitseq::zigzag_of(n) as nat,
            ) + rest),
            count,
        ) == (match dod::take_stream(Dod::start(t), (count - 1) as nat, rest) {
            None => None,
            Some((ts, rest)) => match packed::take_vectors(rest, (count - 1) as nat, n) {
                None => None,
                Some((ns, rest)) => Some(((seq![t] + ts).zip_with(seq![n] + ns), rest)),
            },
        }),
{
    bitseq::lemma_take_signed(t, bitseq::varint(bitseq::zigzag_of(n) as nat) + rest);
    bitseq::lemma_take_signed(n, rest);
}

/// Reading a block: the count, the exponent in eight bits, which is at most 17, and if there are
/// points the patch list, then the timestamps and the integers; each integer divided by that
/// power of ten, and the patches put in.
pub proof fn law_read(count: u64, e: u64, rest: Seq<bool>)
    requires
        e < 256,
    ensures
        packed::taken(bitseq::varint(count as nat) + (bitseq::bits_of(e as nat, 8) + rest)) == (if e
            > 17 {
            None
        } else if count == 0 {
            Some((Seq::<Point>::empty(), rest))
        } else {
            match patching::take_list(rest, count) {
                None => None,
                Some((patches, rest)) => match packed::take_body(rest, count as nat) {
                    None => None,
                    Some((pairs, rest)) => Some(
                        (
                            patching::patched(
                                pairs.map_values(
                                    |pair: (i64, i64)|
                                        Point {
                                            timestamp: pair.0,
                                            value: decimal::unscaled_of(pair.1, e as nat),
                                        },
                                ),
                                patches,
                            ),
                            rest,
                        ),
                    ),
                },
            }
        }),
{
    lemma2_to64();
    bitseq::lemma_take_varint(count, bitseq::bits_of(e as nat, 8) + rest);
    bitseq::lemma_take_bits(e, 8, rest);
    if let Some((patches, rest)) = patching::take_list(rest, count) {
        if let Some((pairs, rest)) = packed::take_body(rest, count as nat) {
            assert(decimal::readings(pairs, e as nat) =~= pairs.map_values(
                |pair: (i64, i64)|
                    Point { timestamp: pair.0, value: decimal::unscaled_of(pair.1, e as nat) },
            ));
        }
    }
}

} // verus!
