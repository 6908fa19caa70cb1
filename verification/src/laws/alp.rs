//! ALP: which readings are patched, what an exponent is priced at, when a block is given up, and
//! how the patch list lies in the stream.

use crate::bitseq;
use crate::codec::alp;
use crate::codec::alp::Alp;
use crate::codec::decimal;
use crate::codec::dod;
use crate::codec::gorilla;
use crate::codec::Codec;
use crate::laws::decimal as scaled;
use crate::laws::steps;
use crate::point::Point;
use vstd::arithmetic::power2::*;
use vstd::prelude::*;

verus! {

/// How many readings of a block do not scale at exponent `e`.
pub open spec fn misfits(points: Seq<Point>, e: nat) -> nat {
    points.filter(|p: Point| decimal::scaled_of(p.value, e) is None).len()
}

/// There is a patch to every reading that does not scale, and no other.
pub(crate) proof fn lemma_misfits(points: Seq<Point>, e: nat)
    ensures
        alp::exceptions_of(points, e).len() == misfits(points, e),
    decreases points.len(),
{
    reveal(Seq::filter);
    if points.len() > 0 {
        lemma_misfits(points.drop_last(), e);
    }
}

/// The integers of a block: a reading that scales has its own, one that does not repeats the one
/// before it, and before there is one the integer is zero.
pub proof fn law_integers(points: Seq<Point>, e: nat, i: int)
    requires
        0 <= i < points.len(),
    ensures
        alp::integers_of(points, e).len() == points.len(),
        alp::integers_of(points, e)[i] == (match decimal::scaled_of(points[i].value, e) {
            Some(integer) => integer,
            None => if i == 0 {
                0
            } else {
                alp::integers_of(points, e)[i - 1]
            },
        }),
{
    assert(alp::integers_of(points, e)[i] == alp::filled(points, e, (i + 1) as nat));
    assert(alp::filled(points, e, 0) == 0);
    if i > 0 {
        assert(alp::integers_of(points, e)[i - 1] == alp::filled(points, e, i as nat));
    }
}

/// The patches of a block are the readings that do not scale, each with its place, in order.
pub proof fn law_patches(points: Seq<Point>, e: nat)
    requires
        points.len() <= u64::MAX,
    ensures
        alp::exceptions_of(points, e).len() == misfits(points, e),
        forall|i: int|
            0 <= i < points.len() ==> (#[trigger] decimal::scaled_of(points[i].value, e) is None
                <==> alp::exceptions_of(points, e).contains((i as u64, points[i].value))),
        forall|k: int|
            0 <= k < alp::exceptions_of(points, e).len() ==> (#[trigger] alp::exceptions_of(
                points,
                e,
            )[k]).0 < points.len(),
        forall|k: int, l: int|
            0 <= k < l < alp::exceptions_of(points, e).len() ==> (#[trigger] alp::exceptions_of(
                points,
                e,
            )[k]).0 < (#[trigger] alp::exceptions_of(points, e)[l]).0,
{
    lemma_misfits(points, e);
    alp::lemma_exceptions(points, e);
    let patches = alp::exceptions_of(points, e);
    assert forall|i: int| 0 <= i < points.len() implies (#[trigger] decimal::scaled_of(
        points[i].value,
        e,
    ) is None <==> patches.contains((i as u64, points[i].value))) by {
        if decimal::scaled_of(points[i].value, e) is None {
            let k = alp::lemma_exception_at(points, e, i);
            assert(patches[k] == (i as u64, points[i].value));
        }
        if patches.contains((i as u64, points[i].value)) {
            let k = choose|k: int|
                0 <= k < patches.len() && patches[k] == (i as u64, points[i].value);
            assert(decimal::scaled_of(patches[k].1, e) is None);
        }
    }
}

/// The values of a run, with nothing between them: none for none, one is a zigzagged varint, and
/// each further one appends the change of the step.
pub proof fn law_values(ns: Seq<i64>)
    ensures
        ns.len() == 0 ==> alp::value_bits(ns).len() == 0,
        ns.len() == 1 ==> alp::value_bits(ns) == bitseq::varint(bitseq::zigzag_of(ns[0]) as nat),
        ns.len() > 1 ==> alp::value_bits(ns) == alp::value_bits(ns.drop_last()) + dod::dod_bits(
            steps::change(ns),
        ),
{
    if ns.len() > 0 {
        steps::law_run(ns);
    }
    if ns.len() == 1 {
        assert(alp::value_bits(ns) =~= bitseq::varint(bitseq::zigzag_of(ns[0]) as nat));
    }
    if ns.len() > 1 {
        assert(alp::value_bits(ns) =~= alp::value_bits(ns.drop_last()) + dod::dod_bits(
            steps::change(ns),
        ));
    }
}

/// What a run is priced at: the bits of its values, and 72 to each reading that does not scale.
pub open spec fn price(run: Seq<Point>, e: nat) -> nat {
    alp::value_bits(alp::integers_of(run, e)).len() + 72 * misfits(run, e)
}

/// Four runs cost together what each of them costs.
pub(crate) proof fn lemma_four(runs: Seq<Seq<Point>>, cost: spec_fn(Seq<Point>) -> nat)
    requires
        runs.len() == 4,
    ensures
        alp::total(runs, cost) == cost(runs[0]) + cost(runs[1]) + cost(runs[2]) + cost(runs[3]),
{
    reveal_with_fuel(alp::total, 6);
    assert(runs.drop_last().drop_last().drop_last().drop_last().len() == 0);
}

/// A block of up to 512 points is priced whole. A longer one is priced by four runs of 128
/// points, at the starts of its four quarters, all four together.
pub proof fn law_price(points: Seq<Point>, e: nat)
    ensures
        alp::cost_of(points, e) == price(points, e),
        points.len() <= 512 ==> alp::sample_cost(points, e) == price(points, e),
        points.len() > 512 ==> ({
            let quarter = points.len() as int / 4;
            alp::sample_cost(points, e) == price(points.subrange(0, 128), e) + price(
                points.subrange(quarter, quarter + 128),
                e,
            ) + price(points.subrange(2 * quarter, 2 * quarter + 128), e) + price(
                points.subrange(3 * quarter, 3 * quarter + 128),
                e,
            )
        }),
{
    lemma_misfits(points, e);
    let runs = alp::runs_of(points);
    let cost = |run: Seq<Point>| alp::cost_of(run, e);
    if points.len() > 512 {
        let quarter = points.len() as int / 4;
        lemma_four(runs, cost);
        assert(runs[0] == points.subrange(0, 128));
        assert(runs[1] == points.subrange(quarter, quarter + 128));
        assert(runs[2] == points.subrange(2 * quarter, 2 * quarter + 128));
        assert(runs[3] == points.subrange(3 * quarter, 3 * quarter + 128));
        lemma_misfits(runs[0], e);
        lemma_misfits(runs[1], e);
        lemma_misfits(runs[2], e);
        lemma_misfits(runs[3], e);
    } else {
        alp::lemma_short_block(points, cost);
    }
}

/// The runs themselves.
pub proof fn law_runs(points: Seq<Point>, k: int)
    ensures
        points.len() <= 512 ==> alp::runs_of(points) == seq![points],
        points.len() > 512 ==> alp::runs_of(points).len() == 4,
        points.len() > 512 && 0 <= k < 4 ==> alp::runs_of(points)[k] == points.subrange(
            k * (points.len() as int / 4),
            k * (points.len() as int / 4) + 128,
        ),
{
}

/// What a list of runs holds is what each of them holds.
pub proof fn law_views(runs: Seq<&[Point]>, k: int)
    requires
        0 <= k < runs.len(),
    ensures
        alp::views(runs).len() == runs.len(),
        alp::views(runs)[k] == runs[k]@,
{
}

/// In a block of more than 512 points, a reading that does not scale adds 72 bits to the price of
/// an exponent whichever of the four runs it lies in.
pub proof fn law_price_at_least(points: Seq<Point>, e: nat, k: int)
    requires
        points.len() > 512,
        0 <= k < 4,
    ensures
        alp::sample_cost(points, e) >= 72 * misfits(
            points.subrange(
                k * (points.len() as int / 4),
                k * (points.len() as int / 4) + 128,
            ),
            e,
        ),
{
    law_price(points, e);
    assert(k == 0 || k == 1 || k == 2 || k == 3);
}

/// The exponent is one of 0 to 17, none of those has a lower price, and none smaller has the same.
pub proof fn law_exponent(points: Seq<Point>, e: nat)
    requires
        e <= 17,
    ensures
        alp::exponent_of(points) <= 17,
        alp::sample_cost(points, alp::exponent_of(points)) <= alp::sample_cost(points, e),
        e < alp::exponent_of(points) ==> alp::sample_cost(points, alp::exponent_of(points))
            < alp::sample_cost(points, e),
{
    alp::lemma_exponent(points);
}

/// A block has too many patches exactly when more than one reading in four, of all its readings,
/// does not scale.
pub proof fn law_too_many(points: Seq<Point>, e: nat)
    ensures
        alp::falls_back(points, e) <==> 4 * misfits(points, e) > points.len(),
{
    lemma_misfits(points, e);
}

/// A block is an ALP block exactly when at most one reading in four, of all its readings, does
/// not scale at its exponent; otherwise it is the Gorilla block of the same points.
pub proof fn law_tag(points: Seq<Point>)
    ensures
        Alp.tag_of(points) == 0x05 <==> 4 * misfits(points, alp::exponent_of(points))
            <= points.len(),
        Alp.tag_of(points) != 0x05 ==> Alp.tag_of(points) == 0x00 && Alp.stream_of(points)
            == gorilla::stream(points),
{
    law_too_many(points, alp::exponent_of(points));
}

/// The stream of an ALP block: the count, the exponent in eight bits, and if there are points the
/// patch list, then the timestamps and the integers.
pub proof fn law_stream(points: Seq<Point>)
    requires
        Alp.tag_of(points) == 0x05,
    ensures
        points.len() == 0 ==> Alp.stream_of(points) == bitseq::varint(0) + bitseq::bits_of(
            alp::exponent_of(points),
            8,
        ),
        points.len() > 0 ==> Alp.stream_of(points) == bitseq::varint(points.len())
            + bitseq::bits_of(alp::exponent_of(points), 8) + alp::list_bits(
            alp::exceptions_of(points, alp::exponent_of(points)),
        ) + decimal::scaled_bits(
            scaled::times(points),
            alp::integers_of(points, alp::exponent_of(points)),
        ),
{
    let e = alp::exponent_of(points);
    assert(crate::codec::timestamps(points) =~= scaled::times(points));
    if points.len() > 0 {
        bitseq::lemma_join(
            bitseq::varint(points.len()) + bitseq::bits_of(e, 8),
            alp::list_bits(alp::exceptions_of(points, e)),
            decimal::scaled_bits(scaled::times(points), alp::integers_of(points, e)),
        );
    }
}

/// Appending a patch appends its distance from the one before, and its pattern.
proof fn lemma_patch_next(patches: Seq<(u64, u64)>, previous: u64, patch: (u64, u64))
    ensures
        alp::patch_bits(patches.push(patch), previous) == alp::patch_bits(patches, previous)
            + bitseq::varint(
            (patch.0 - (if patches.len() == 0 {
                previous
            } else {
                patches.last().0
            })) as nat,
        ) + bitseq::bits_of(patch.1 as nat, 64),
    decreases patches.len(),
{
    let longer = patches.push(patch);
    if patches.len() == 0 {
        reveal_with_fuel(alp::patch_bits, 2);
        assert(longer.skip(1).len() == 0);
        assert(alp::patch_bits(longer, previous) =~= alp::patch_bits(patches, previous)
            + bitseq::varint((patch.0 - previous) as nat) + bitseq::bits_of(patch.1 as nat, 64));
    } else {
        let (index, value) = patches[0];
        let tail = patches.skip(1);
        assert(longer.skip(1) =~= tail.push(patch));
        lemma_patch_next(tail, index, patch);
        let last = if tail.len() == 0 {
            index
        } else {
            tail.last().0
        };
        assert(last == patches.last().0);
        let gap = bitseq::varint((patch.0 - last) as nat);
        let bits = bitseq::bits_of(patch.1 as nat, 64);
        let first = bitseq::varint((index - previous) as nat);
        let pattern = bitseq::bits_of(value as nat, 64);
        let more = alp::patch_bits(tail, index);
        assert(first + (pattern + (more + gap + bits)) =~= (first + (pattern + more)) + gap + bits);
    }
}

/// No patches are one zero bit. Some are a one bit, how many there are, and then each of them, its
/// distance from the one before, or from the start, and its pattern in 64 bits.
pub proof fn law_list(patches: Seq<(u64, u64)>)
    ensures
        patches.len() == 0 ==> alp::list_bits(patches) == seq![false],
        patches.len() > 0 ==> alp::list_bits(patches) == seq![true] + bitseq::varint(
            patches.len(),
        ) + alp::patch_bits(patches, 0),
        alp::patch_bits(Seq::empty(), 0).len() == 0,
        patches.len() > 0 ==> alp::patch_bits(patches, 0) == alp::patch_bits(
            patches.drop_last(),
            0,
        ) + bitseq::varint(
            (patches.last().0 - (if patches.len() == 1 {
                0
            } else {
                patches[patches.len() - 2].0
            })) as nat,
        ) + bitseq::bits_of(patches.last().1 as nat, 64),
{
    if patches.len() > 0 {
        assert(patches =~= patches.drop_last().push(patches.last()));
        lemma_patch_next(patches.drop_last(), 0, patches.last());
        bitseq::lemma_join(
            seq![true],
            bitseq::varint(patches.len()),
            alp::patch_bits(patches, 0),
        );
    }
}

/// Reading a patch list: a zero bit is none. Behind a one bit, more patches than points are an
/// error, and so is a patch past the last point; otherwise each is its distance from the one
/// before and its pattern.
pub proof fn law_read_list(
    n: u64,
    gap: u64,
    value: u64,
    left: nat,
    previous: u64,
    count: u64,
    rest: Seq<bool>,
)
    ensures
        alp::take_list(seq![false] + rest, count) == Some((Seq::<(u64, u64)>::empty(), rest)),
        n > count ==> alp::take_list(
            seq![true] + (bitseq::varint(n as nat) + rest),
            count,
        ) is None,
        n <= count ==> alp::take_list(seq![true] + (bitseq::varint(n as nat) + rest), count)
            == alp::take_patches(rest, n as nat, 0, count),
        alp::take_patches(rest, 0, previous, count) == Some((Seq::<(u64, u64)>::empty(), rest)),
        previous + gap >= count ==> alp::take_patches(
            bitseq::varint(gap as nat) + rest,
            left + 1,
            previous,
            count,
        ) is None,
        previous + gap < count ==> alp::take_patches(
            bitseq::varint(gap as nat) + (bitseq::bits_of(value as nat, 64) + rest),
            left + 1,
            previous,
            count,
        ) == (match alp::take_patches(rest, left, (previous + gap) as u64, count) {
            None => None,
            Some((patches, rest)) => Some(
                (seq![((previous + gap) as u64, value)] + patches, rest),
            ),
        }),
{
    lemma2_to64_rest();
    bitseq::lemma_take_bit(false, rest);
    bitseq::lemma_take_bit(true, bitseq::varint(n as nat) + rest);
    bitseq::lemma_take_varint(n, rest);
    bitseq::lemma_take_varint(gap, rest);
    bitseq::lemma_take_varint(gap, bitseq::bits_of(value as nat, 64) + rest);
    bitseq::lemma_take_bits(value, 64, rest);
}

/// Patching puts each patch's pattern in its place, a later one over an earlier, and changes
/// nothing else.
pub proof fn law_patched(points: Seq<Point>, patches: Seq<(u64, u64)>, i: int)
    requires
        forall|k: int| 0 <= k < patches.len() ==> (#[trigger] patches[k]).0 < points.len(),
        0 <= i < points.len(),
    ensures
        alp::patched(points, patches).len() == points.len(),
        alp::patched(points, patches)[i].timestamp == points[i].timestamp,
        (forall|k: int| 0 <= k < patches.len() ==> (#[trigger] patches[k]).0 != i) ==> alp::patched(
            points,
            patches,
        )[i].value == points[i].value,
        forall|k: int|
            0 <= k < patches.len() && (#[trigger] patches[k]).0 == i && (forall|l: int|
                k < l < patches.len() ==> (#[trigger] patches[l]).0 != i) ==> alp::patched(
                points,
                patches,
            )[i].value == patches[k].1,
    decreases patches.len(),
{
    if patches.len() > 0 {
        let (index, value) = patches[0];
        let point = Point { timestamp: points[index as int].timestamp, value };
        let next = points.update(index as int, point);
        let tail = patches.skip(1);
        assert forall|k: int| 0 <= k < tail.len() implies (#[trigger] tail[k]).0 < next.len() by {
            assert(tail[k] == patches[k + 1]);
        }
        law_patched(next, tail, i);
        assert forall|k: int|
            0 <= k < patches.len() && (#[trigger] patches[k]).0 == i && (forall|l: int|
                k < l < patches.len() ==> (#[trigger] patches[l]).0 != i) implies alp::patched(
            points,
            patches,
        )[i].value == patches[k].1 by {
            if k == 0 {
                assert forall|l: int| 0 <= l < tail.len() implies (#[trigger] tail[l]).0 != i by {
                    assert(tail[l] == patches[l + 1]);
                }
            } else {
                assert(tail[k - 1] == patches[k]);
                assert forall|l: int| k - 1 < l < tail.len() implies (#[trigger] tail[l]).0
                    != i by {
                    assert(tail[l] == patches[l + 1]);
                }
            }
        }
        if forall|k: int| 0 <= k < patches.len() ==> (#[trigger] patches[k]).0 != i {
            assert(patches[0].0 != i);
            assert forall|l: int| 0 <= l < tail.len() implies (#[trigger] tail[l]).0 != i by {
                assert(tail[l] == patches[l + 1]);
            }
        }
    }
}

/// Reading a block: the count, the exponent in eight bits, which is at most 17, and if there are
/// points the patch list, then the timestamps and the integers; each integer divided by that
/// power of ten, and the patches put in.
pub proof fn law_read(count: u64, e: u64, rest: Seq<bool>)
    requires
        e < 256,
    ensures
        alp::taken(bitseq::varint(count as nat) + (bitseq::bits_of(e as nat, 8) + rest)) == (if e
            > 17 {
            None
        } else if count == 0 {
            Some((Seq::<Point>::empty(), rest))
        } else {
            match alp::take_list(rest, count) {
                None => None,
                Some((patches, rest)) => match decimal::take_scaled(rest, count as nat) {
                    None => None,
                    Some((pairs, rest)) => Some(
                        (
                            alp::patched(
                                pairs.map_values(
                                    |pair: (i64, i64)|
                                        Point {
                                            timestamp: pair.0,
                                            value: decimal::unscaled_of(pair.1, e as nat),
                                        },
                                ),
                                patches,
                            ),
                            rest,
                        ),
                    ),
                },
            }
        }),
{
    lemma2_to64();
    bitseq::lemma_take_varint(count, bitseq::bits_of(e as nat, 8) + rest);
    bitseq::lemma_take_bits(e, 8, rest);
    if let Some((patches, rest)) = alp::take_list(rest, count) {
        if let Some((pairs, rest)) = decimal::take_scaled(rest, count as nat) {
            assert(decimal::readings(pairs, e as nat) =~= pairs.map_values(
                |pair: (i64, i64)|
                    Point { timestamp: pair.0, value: decimal::unscaled_of(pair.1, e as nat) },
            ));
        }
    }
}

} // verus!
