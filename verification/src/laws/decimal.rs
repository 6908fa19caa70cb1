//! Blocks of scaled integers: how timestamps and integers lie beside each other, and which
//! decimal scale a block gets.

use crate::bitseq;
use crate::codec::decimal;
use crate::codec::decimal::Decimal;
use crate::codec::dod;
use crate::codec::gorilla;
use crate::codec::Codec;
use crate::laws::steps;
use crate::point::Point;
use vstd::arithmetic::power2::*;
use vstd::prelude::*;

verus! {

/// When the points of a block were taken.
pub open spec fn times(points: Seq<Point>) -> Seq<i64> {
    points.map_values(|p: Point| p.timestamp)
}

/// Whether every reading of a block scales at exponent `e`.
pub open spec fn all_scale(points: Seq<Point>, e: nat) -> bool {
    points.all(|p: Point| decimal::scaled_of(p.value, e) is Some)
}

/// One point is its timestamp and its integer, each a zigzagged varint. Each further point
/// appends the change of the timestamps' step, and behind it the change of the integers' step.
pub proof fn law_points(ts: Seq<i64>, ns: Seq<i64>)
    requires
        ts.len() == ns.len(),
        ts.len() > 0,
    ensures
        ts.len() == 1 ==> decimal::scaled_bits(ts, ns) == bitseq::varint(
            bitseq::zigzag_of(ts[0]) as nat,
        ) + bitseq::varint(bitseq::zigzag_of(ns[0]) as nat),
        ts.len() > 1 ==> decimal::scaled_bits(ts, ns) == decimal::scaled_bits(
            ts.drop_last(),
            ns.drop_last(),
        ) + dod::dod_bits(steps::change(ts)) + dod::dod_bits(steps::change(ns)),
{
    steps::law_pairs(ts, ns);
    if ts.len() == 1 {
        assert(decimal::scaled_bits(ts, ns) =~= bitseq::varint(bitseq::zigzag_of(ts[0]) as nat)
            + bitseq::varint(bitseq::zigzag_of(ns[0]) as nat));
    } else {
        assert(decimal::scaled_bits(ts, ns) =~= decimal::scaled_bits(ts.drop_last(), ns.drop_last())
            + dod::dod_bits(steps::change(ts)) + dod::dod_bits(steps::change(ns)));
    }
}

/// Two points: what follows the first integer is the distance of the timestamps, and behind it
/// the distance of the integers.
pub proof fn law_two_points(ts: Seq<i64>, ns: Seq<i64>)
    requires
        ts.len() == 2,
        ns.len() == 2,
    ensures
        decimal::scaled_bits(ts, ns) == bitseq::varint(bitseq::zigzag_of(ts[0]) as nat)
            + bitseq::varint(bitseq::zigzag_of(ns[0]) as nat) + dod::dod_bits(
            ts[1].wrapping_sub(ts[0]),
        ) + dod::dod_bits(ns[1].wrapping_sub(ns[0])),
{
    law_points(ts, ns);
    law_points(ts.drop_last(), ns.drop_last());
}

/// Reading one point takes two zigzagged varints, the timestamp first. Reading one point more
/// takes two changes more: that of the timestamps' step, then that of the integers'.
pub proof fn law_read_points(n: nat, s: Seq<bool>)
    requires
        n > 0,
    ensures
        decimal::take_scaled(s, 1) == (match bitseq::take_signed(s) {
            None => None,
            Some((t, rest)) => match bitseq::take_signed(rest) {
                None => None,
                Some((i, rest)) => Some((seq![(t, i)], rest)),
            },
        }),
        decimal::take_scaled(s, n + 1) == (match decimal::take_scaled(s, n) {
            None => None,
            Some((pairs, rest)) => match dod::take_dod(rest) {
                None => None,
                Some((c, rest)) => match dod::take_dod(rest) {
                    None => None,
                    Some((d, rest)) => {
                        let ts = steps::lefts(pairs);
                        let ns = steps::rights(pairs);
                        Some(
                            (
                                pairs.push(
                                    (
                                        ts.last().wrapping_add(
                                            steps::step(ts).wrapping_add(c),
                                        ),
                                        ns.last().wrapping_add(
                                            steps::step(ns).wrapping_add(d),
                                        ),
                                    ),
                                ),
                                rest,
                            ),
                        )
                    },
                },
            },
        }),
{
    if let Some((t, rest)) = bitseq::take_signed(s) {
        if let Some((i, rest)) = bitseq::take_signed(rest) {
            steps::law_read_pairs(t, i, (n - 1) as nat, rest);
            assert(seq![(t, i)] + Seq::<(i64, i64)>::empty() =~= seq![(t, i)]);
            if let Some((more, after)) = dod::take_pairs(
                dod::Dod::start(t),
                dod::Dod::start(i),
                (n - 1) as nat,
                rest,
            ) {
                let pairs = seq![(t, i)] + more;
                assert(steps::lefts(pairs) =~= seq![t] + steps::lefts(more));
                assert(steps::rights(pairs) =~= seq![i] + steps::rights(more));
                if let Some((c, after)) = dod::take_dod(after) {
                    if let Some((d, after)) = dod::take_dod(after) {
                        let ts = steps::lefts(pairs);
                        let ns = steps::rights(pairs);
                        let pair = (
                            ts.last().wrapping_add(steps::step(ts).wrapping_add(c)),
                            ns.last().wrapping_add(steps::step(ns).wrapping_add(d)),
                        );
                        assert(seq![(t, i)] + more.push(pair) =~= pairs.push(pair));
                    }
                }
            }
        }
    }
}

/// Two ways of saying that every reading scales.
proof fn lemma_all_scale(points: Seq<Point>, e: nat)
    ensures
        all_scale(points, e) == decimal::scales(points, e),
{
    let fits = |p: Point| decimal::scaled_of(p.value, e) is Some;
    if all_scale(points, e) {
        assert forall|i: int| 0 <= i < points.len() implies #[trigger] decimal::scaled_of(
            points[i].value,
            e,
        ) is Some by {
            assert(fits(points[i]));
        }
    }
    if decimal::scales(points, e) {
        assert forall|i: int| 0 <= i < points.len() implies #[trigger] fits(points[i]) by {
            assert(decimal::scaled_of(points[i].value, e) is Some);
        }
    }
}

/// The smallest exponent at which all readings scale is the one chosen.
pub(crate) proof fn lemma_smallest(points: Seq<Point>, e: nat)
    requires
        e <= 17,
        all_scale(points, e),
        forall|d: nat| d < e ==> !#[trigger] all_scale(points, d),
    ensures
        decimal::scale_from(points, 0) == Some(e),
{
    decimal::lemma_scale(points, 0);
    lemma_all_scale(points, e);
    assert forall|d: nat| d < e implies !#[trigger] decimal::scales(points, d) by {
        lemma_all_scale(points, d);
        assert(!all_scale(points, d));
    }
}

/// A block has tag 1 exactly when all its readings scale at one of the exponents 0 to 17, and is
/// otherwise the Gorilla block of the same points. The exponent in its header is the smallest at
/// which they all scale; behind it come the timestamps and the integers.
pub proof fn law_block(points: Seq<Point>, e: nat)
    requires
        e <= 17,
        all_scale(points, e),
        forall|d: nat| d < e ==> !#[trigger] all_scale(points, d),
    ensures
        Decimal.tag_of(points) == 0x01,
        points.len() == 0 ==> Decimal.stream_of(points) == bitseq::varint(0) + bitseq::bits_of(
            0,
            8,
        ),
        points.len() > 0 ==> Decimal.stream_of(points) == bitseq::varint(points.len())
            + bitseq::bits_of(e, 8) + decimal::scaled_bits(
            times(points),
            points.map_values(|p: Point| decimal::scaled_of(p.value, e)->Some_0),
        ),
{
    lemma_smallest(points, e);
    assert(crate::codec::timestamps(points) =~= times(points));
    assert(decimal::integers_of(points, e) =~= points.map_values(
        |p: Point| decimal::scaled_of(p.value, e)->Some_0,
    ));
    if points.len() == 0 {
        assert(all_scale(points, 0));
    }
}

/// Where at each exponent from 0 to 17 some reading does not scale, the block is the Gorilla
/// block of the same points.
pub proof fn law_fallback(points: Seq<Point>)
    requires
        forall|d: nat| d <= 17 ==> !#[trigger] all_scale(points, d),
    ensures
        Decimal.tag_of(points) == 0x00,
        Decimal.stream_of(points) == gorilla::stream(points),
{
    decimal::lemma_scale(points, 0);
    if let Some(e) = decimal::scale_from(points, 0) {
        lemma_all_scale(points, e);
        assert(!all_scale(points, e));
    }
}

/// Reading a block: the count, then the exponent in eight bits, which is at most 17, then as many
/// timestamps and integers, each integer divided by that power of ten.
pub proof fn law_read(count: u64, e: u64, rest: Seq<bool>)
    requires
        e < 256,
    ensures
        decimal::taken(bitseq::varint(count as nat) + (bitseq::bits_of(e as nat, 8) + rest)) == (
        if e > 17 {
            None
        } else if count == 0 {
            Some((Seq::<Point>::empty(), rest))
        } else {
            match decimal::take_scaled(rest, count as nat) {
                None => None,
                Some((pairs, rest)) => Some(
                    (
                        pairs.map_values(
                            |pair: (i64, i64)|
                                Point {
                                    timestamp: pair.0,
                                    value: decimal::unscaled_of(pair.1, e as nat),
                                },
                        ),
                        rest,
                    ),
                ),
            }
        }),
{
    lemma2_to64();
    bitseq::lemma_take_varint(count, bitseq::bits_of(e as nat, 8) + rest);
    bitseq::lemma_take_bits(e, 8, rest);
    if let Some((pairs, rest)) = decimal::take_scaled(rest, count as nat) {
        assert(decimal::readings(pairs, e as nat) =~= pairs.map_values(
            |pair: (i64, i64)|
                Point { timestamp: pair.0, value: decimal::unscaled_of(pair.1, e as nat) },
        ));
    }
}

} // verus!
