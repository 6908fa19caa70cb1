//! ALP: decimal scaling that tolerates readings which do not scale.
//!
//! The decimal codec needs every reading of a block to scale, so one that does not sends the
//! whole block elsewhere. Here such a reading is stored whole in a patch list, keyed by its
//! position, and the stream of integers repeats the last one that scaled in its place, so that
//! it costs a zero delta rather than a spike. And since some readings may be patched, the
//! exponent is chosen by what the block will cost rather than by what fits every reading.

use crate::binary64;
use crate::bits::{BitReader, BitWriter};
use crate::bitseq;
use crate::codec;
use crate::codec::decimal;
use crate::codec::decimal::MAX_SCALE;
use crate::codec::dod;
use crate::codec::dod::Dod;
use crate::codec::gorilla;
use crate::codec::gorilla::Gorilla;
use crate::codec::{Codec, TAG_ALP, TAG_GORILLA};
use crate::error::Error;
use crate::point::Point;
use vstd::arithmetic::power2::*;
use vstd::prelude::*;

verus! {

/// What one patch costs: the 64-bit pattern, and the one varint group that covers any gap under
/// 128 points. Wider gaps are undercounted, which can only make an exponent with few patches
/// look slightly better than it is.
pub const EXCEPTION_BITS: u64 = 72;

/// Past one patch to this many points, the block goes to Gorilla, which stores such data in less.
pub const MAX_EXCEPTIONS_PER: u64 = 4;

/// How long a sample run is. Runs are contiguous because a delta-of-delta charges for the shape
/// of a run.
pub const SAMPLE_RUN: usize = 128;

/// How many sample runs a long block is priced by.
pub const SAMPLE_RUNS: usize = 4;

/// The ALP codec.
pub struct Alp;

/// The last integer that stands for one of the first `n` readings, or zero before there is one.
pub open spec fn filled(points: Seq<Point>, e: nat, n: nat) -> i64
    decreases n,
{
    if n == 0 {
        0
    } else {
        match decimal::scaled_of(points[n - 1].value, e) {
            Some(integer) => integer,
            None => filled(points, e, (n - 1) as nat),
        }
    }
}

/// The integer stream of a block: each reading's integer, or the last one before it.
pub open spec fn integers_of(points: Seq<Point>, e: nat) -> Seq<i64> {
    Seq::new(points.len(), |i: int| filled(points, e, (i + 1) as nat))
}

/// The patches of a block: where the readings are that do not scale, and their bit patterns.
pub open spec fn exceptions_of(points: Seq<Point>, e: nat) -> Seq<(u64, u64)>
    decreases points.len(),
{
    if points.len() == 0 {
        Seq::empty()
    } else {
        let before = exceptions_of(points.drop_last(), e);
        if decimal::scaled_of(points.last().value, e) is Some {
            before
        } else {
            before.push(((points.len() - 1) as u64, points.last().value))
        }
    }
}

/// How the values of a block are written when nothing stands between them: the first integer
/// whole, then the others.
pub open spec fn value_bits(integers: Seq<i64>) -> Seq<bool> {
    if integers.len() == 0 {
        Seq::empty()
    } else {
        bitseq::varint(bitseq::zigzag_of(integers[0]) as nat) + dod::stream_bits(
            Dod::start(integers[0]),
            integers.skip(1),
        )
    }
}

/// What the values of a run cost at exponent `e`: the bits that the encoder would write for
/// them, and its patches.
pub open spec fn cost_of(points: Seq<Point>, e: nat) -> nat {
    value_bits(integers_of(points, e)).len() + exceptions_of(points, e).len()
        * EXCEPTION_BITS as nat
}

/// The runs that a block is priced by: all of it when it is short, and otherwise the starts of
/// equal parts of it.
pub open spec fn runs_of(points: Seq<Point>) -> Seq<Seq<Point>> {
    if points.len() <= SAMPLE_RUN * SAMPLE_RUNS {
        seq![points]
    } else {
        let stride = points.len() / SAMPLE_RUNS as nat;
        Seq::new(
            SAMPLE_RUNS as nat,
            |run: int| points.subrange(run * stride, run * stride + SAMPLE_RUN),
        )
    }
}

/// What a list of runs holds.
pub open spec fn views(runs: Seq<&[Point]>) -> Seq<Seq<Point>> {
    Seq::new(runs.len(), |i: int| runs[i]@)
}

/// What several runs cost together.
pub open spec fn total(runs: Seq<Seq<Point>>, cost: spec_fn(Seq<Point>) -> nat) -> nat
    decreases runs.len(),
{
    if runs.len() == 0 {
        0
    } else {
        total(runs.drop_last(), cost) + cost(runs.last())
    }
}

/// What the sample runs of a block cost at exponent `e`.
pub open spec fn sample_cost(points: Seq<Point>, e: nat) -> nat {
    total(runs_of(points), |run: Seq<Point>| cost_of(run, e))
}

/// The cheapest of the exponents up to `k`, and the smallest of those.
pub open spec fn cheapest(cost: spec_fn(nat) -> nat, k: nat) -> nat
    decreases k,
{
    if k == 0 {
        0
    } else {
        let best = cheapest(cost, (k - 1) as nat);
        if cost(k) < cost(best) {
            k
        } else {
            best
        }
    }
}

/// The exponent of a block.
pub open spec fn exponent_of(points: Seq<Point>) -> nat {
    cheapest(|e: nat| sample_cost(points, e), MAX_SCALE as nat)
}

/// The cheapest exponent costs no more than any other, and less than any smaller one.
pub proof fn lemma_cheapest(cost: spec_fn(nat) -> nat, k: nat)
    ensures
        cheapest(cost, k) <= k,
        forall|e: nat| e <= k ==> cost(cheapest(cost, k)) <= #[trigger] cost(e),
        forall|e: nat| e < cheapest(cost, k) ==> cost(cheapest(cost, k)) < #[trigger] cost(e),
    decreases k,
{
    if k > 0 {
        lemma_cheapest(cost, (k - 1) as nat);
    }
}

/// No exponent prices the sample runs of a block lower than the one chosen for it, and ties go
/// to the smallest.
pub proof fn lemma_exponent(points: Seq<Point>)
    ensures
        exponent_of(points) <= MAX_SCALE,
        forall|e: nat|
            e <= MAX_SCALE ==> sample_cost(points, exponent_of(points)) <= #[trigger] sample_cost(
                points,
                e,
            ),
        forall|e: nat|
            e < exponent_of(points) ==> sample_cost(points, exponent_of(points))
                < #[trigger] sample_cost(points, e),
{
    let cost = |e: nat| sample_cost(points, e);
    lemma_cheapest(cost, MAX_SCALE as nat);
    assert forall|e: nat| e <= MAX_SCALE implies sample_cost(points, exponent_of(points))
        <= #[trigger] sample_cost(points, e) by {
        assert(cost(exponent_of(points)) <= cost(e));
    }
    assert forall|e: nat| e < exponent_of(points) implies sample_cost(points, exponent_of(points))
        < #[trigger] sample_cost(points, e) by {
        assert(cost(exponent_of(points)) < cost(e));
    }
}

/// The patches of a block say where they are in ascending order.
pub proof fn lemma_exceptions(points: Seq<Point>, e: nat)
    requires
        points.len() <= u64::MAX,
    ensures
        exceptions_of(points, e).len() <= points.len(),
        forall|k: int|
            0 <= k < exceptions_of(points, e).len() ==> {
                let patch = #[trigger] exceptions_of(points, e)[k];
                &&& patch.0 < points.len()
                &&& patch.1 == points[patch.0 as int].value
                &&& decimal::scaled_of(patch.1, e) is None
            },
        forall|k: int, l: int|
            0 <= k < l < exceptions_of(points, e).len() ==> #[trigger] exceptions_of(points, e)[k].0
                < #[trigger] exceptions_of(points, e)[l].0,
    decreases points.len(),
{
    if points.len() > 0 {
        lemma_exceptions(points.drop_last(), e);
        let before = exceptions_of(points.drop_last(), e);
        assert forall|k: int| 0 <= k < exceptions_of(points, e).len() implies {
            let patch = #[trigger] exceptions_of(points, e)[k];
            &&& patch.0 < points.len()
            &&& patch.1 == points[patch.0 as int].value
            &&& decimal::scaled_of(patch.1, e) is None
        } by {
            if k < before.len() {
                assert(exceptions_of(points, e)[k] == before[k]);
            }
        }
    }
}

/// Every reading that does not scale has a patch.
pub proof fn lemma_exception_at(points: Seq<Point>, e: nat, i: int) -> (k: int)
    requires
        points.len() <= u64::MAX,
        0 <= i < points.len(),
        decimal::scaled_of(points[i].value, e) is None,
    ensures
        0 <= k < exceptions_of(points, e).len(),
        exceptions_of(points, e)[k] == (i as u64, points[i].value),
    decreases points.len(),
{
    let before = exceptions_of(points.drop_last(), e);
    if i == points.len() - 1 {
        before.len() as int
    } else {
        let k = lemma_exception_at(points.drop_last(), e, i);
        assert(exceptions_of(points, e)[k] == before[k]);
        k
    }
}

/// Splits a block into the integer stream and the patches at `exponent`.
pub fn split(points: &[Point], exponent: u8) -> (parts: (Vec<i64>, Vec<(u64, u64)>))
    requires
        exponent <= MAX_SCALE,
    ensures
        parts.0@ == integers_of(points@, exponent as nat),
        parts.1@ == exceptions_of(points@, exponent as nat),
{
    let mut integers: Vec<i64> = Vec::with_capacity(points.len());
    let mut exceptions: Vec<(u64, u64)> = Vec::new();
    let mut fill: i64 = 0;
    let mut i: usize = 0;
    let ghost e = exponent as nat;
    assert(points@.take(0) =~= Seq::<Point>::empty());
    while i < points.len()
        invariant
            exponent <= MAX_SCALE,
            e == exponent,
            i <= points.len(),
            fill == filled(points@, e, i as nat),
            integers@.len() == i,
            forall|j: int|
                0 <= j < i ==> #[trigger] integers@[j] == filled(points@, e, (j + 1) as nat),
            exceptions@ == exceptions_of(points@.take(i as int), e),
        decreases points.len() - i,
    {
        let point: Point = points[i];
        assert(points@.take(i + 1).drop_last() =~= points@.take(i as int));
        match decimal::scaled(point.value, exponent) {
            Some(integer) => {
                fill = integer;
                integers.push(integer);
            },
            None => {
                exceptions.push((i as u64, point.value));
                integers.push(fill);
            },
        }
        i = i + 1;
    }
    assert(points@.take(i as int) =~= points@);
    assert(integers@ =~= integers_of(points@, e));
    (integers, exceptions)
}

/// The runs that a block is priced by.
pub fn sample_runs(points: &[Point]) -> (runs: Vec<&[Point]>)
    ensures
        views(runs@) == runs_of(points@),
{
    let mut runs: Vec<&[Point]> = Vec::new();
    if points.len() <= SAMPLE_RUN * SAMPLE_RUNS {
        runs.push(points);
        assert(views(runs@) =~= runs_of(points@));
        return runs;
    }
    let len: usize = points.len();
    let stride: usize = len / SAMPLE_RUNS;
    let mut run: usize = 0;
    let mut start: usize = 0;
    while run < SAMPLE_RUNS
        invariant
            len == points@.len(),
            len > SAMPLE_RUN * SAMPLE_RUNS,
            stride == points@.len() / SAMPLE_RUNS as nat,
            run <= SAMPLE_RUNS,
            start == run * stride,
            runs@.len() == run,
            forall|i: int| 0 <= i < run ==> #[trigger] runs@[i]@ == runs_of(points@)[i],
        decreases SAMPLE_RUNS - run,
    {
        assert(start + SAMPLE_RUN <= len && start + stride <= len) by (nonlinear_arith)
            requires
                start == run * stride,
                run < 4,
                4 * stride <= len,
                stride >= 128,
                SAMPLE_RUN == 128,
        ;
        runs.push(&points[start..start + SAMPLE_RUN]);
        assert((run + 1) * stride == start + stride) by (nonlinear_arith)
            requires
                start == run * stride,
        ;
        start = start + stride;
        run = run + 1;
    }
    assert(views(runs@) =~= runs_of(points@));
    runs
}

/// How many bits a varint takes.
pub fn varint_bits(value: u64) -> (bits: u64)
    ensures
        bits == bitseq::varint(value as nat).len(),
        bits <= 80,
{
    proof {
        bitseq::lemma_leading_zeros(value);
        bitseq::lemma_varint_len(value as nat);
    }
    let payload: u64 = 64 - value.leading_zeros() as u64;
    let groups: u64 = (payload + 6) / 7;
    if groups > 1 {
        groups * 8
    } else {
        8
    }
}

/// The first points of a block have no more patches than all of them.
proof fn lemma_exceptions_grow(points: Seq<Point>, e: nat, n: int)
    requires
        0 <= n <= points.len(),
    ensures
        exceptions_of(points.take(n), e).len() <= exceptions_of(points, e).len(),
    decreases points.len() - n,
{
    if n < points.len() {
        lemma_exceptions_grow(points, e, n + 1);
        assert(points.take(n + 1).drop_last() =~= points.take(n));
    } else {
        assert(points.take(n) =~= points);
    }
}

/// What this run would cost at this exponent.
pub fn cost_bits(points: &[Point], exponent: u8) -> (cost: u64)
    requires
        exponent <= MAX_SCALE,
        80 + 144 * points@.len() <= u64::MAX,
    ensures
        cost == cost_of(points@, exponent as nat),
{
    proof {
        lemma_cost_bound(points@, exponent as nat);
    }
    let ghost e = exponent as nat;
    let ghost integers = integers_of(points@, e);
    let ghost patches = exceptions_of(points@, e).len();
    let mut bits: u64 = 0;
    let mut exceptions: u64 = 0;
    let mut fill: i64 = 0;
    let mut previous: i64 = 0;
    let mut delta: i64 = 0;
    let mut index: usize = 0;
    assert(points@.take(0) =~= Seq::<Point>::empty());
    while index < points.len()
        invariant
            exponent <= MAX_SCALE,
            e == exponent,
            index <= points.len(),
            integers == integers_of(points@, e),
            patches == exceptions_of(points@, e).len(),
            cost_of(points@, e) <= u64::MAX,
            fill == filled(points@, e, index as nat),
            exceptions == exceptions_of(points@.take(index as int), e).len(),
            index == 0 ==> bits == 0 && delta == 0,
            index > 0 ==> bits + dod::stream_bits(
                (Dod { previous, delta }),
                integers.skip(index as int),
            ).len() == value_bits(integers).len(),
        decreases points.len() - index,
    {
        proof {
            assert(points@.take(index + 1).drop_last() =~= points@.take(index as int));
            lemma_exceptions_grow(points@, e, index + 1);
        }
        let integer: i64 = match decimal::scaled(points[index].value, exponent) {
            Some(integer) => {
                fill = integer;
                integer
            },
            None => {
                exceptions = exceptions + 1;
                fill
            },
        };
        assert(integer == integers[index as int]);
        if index == 0 {
            bits = varint_bits(crate::bits::zigzag(integer));
        } else {
            let step: i64 = integer.wrapping_sub(previous);
            assert(integers.skip(index as int).skip(1) =~= integers.skip(index + 1));
            bits = bits + dod::cost(step.wrapping_sub(delta)) as u64;
            delta = step;
        }
        previous = integer;
        index = index + 1;
    }
    assert(points@.take(index as int) =~= points@);
    bits + exceptions * EXCEPTION_BITS
}

/// A run costs at most ten bytes, and eighteen more to a point.
pub proof fn lemma_cost_bound(points: Seq<Point>, e: nat)
    requires
        points.len() <= u64::MAX,
    ensures
        cost_of(points, e) <= 80 + 144 * points.len(),
{
    lemma_exceptions(points, e);
    let integers = integers_of(points, e);
    if integers.len() > 0 {
        bitseq::lemma_varint_len(bitseq::zigzag_of(integers[0]) as nat);
        dod::lemma_stream_bound(Dod::start(integers[0]), integers.skip(1));
    }
}

/// There are few sample runs, and they are short.
pub proof fn lemma_runs(points: Seq<Point>)
    ensures
        1 <= runs_of(points).len() <= SAMPLE_RUNS,
        forall|i: int|
            0 <= i < runs_of(points).len() ==> #[trigger] runs_of(points)[i].len() <= SAMPLE_RUN
                * SAMPLE_RUNS,
{
    if points.len() > SAMPLE_RUN * SAMPLE_RUNS {
        let stride = points.len() / SAMPLE_RUNS as nat;
        assert forall|i: int| 0 <= i < runs_of(points).len() implies #[trigger] runs_of(
            points,
        )[i].len() <= SAMPLE_RUN * SAMPLE_RUNS by {
            assert(i * stride + 128 <= points.len() && 0 <= i * stride) by (nonlinear_arith)
                requires
                    0 <= i < 4,
                    4 * stride <= points.len(),
                    stride >= 128,
            ;
        }
    }
}

/// What several runs cost together at `exponent`.
fn runs_cost(runs: &Vec<&[Point]>, exponent: u8) -> (bits: u64)
    requires
        exponent <= MAX_SCALE,
        runs@.len() <= SAMPLE_RUNS,
        forall|i: int| 0 <= i < runs@.len() ==> #[trigger] runs@[i]@.len() <= SAMPLE_RUN
            * SAMPLE_RUNS,
    ensures
        bits == total(views(runs@), |run: Seq<Point>| cost_of(run, exponent as nat)),
{
    let ghost models = views(runs@);
    let ghost cost = |run: Seq<Point>| cost_of(run, exponent as nat);
    let mut bits: u64 = 0;
    let mut i: usize = 0;
    assert(models.take(0) =~= Seq::<Seq<Point>>::empty());
    while i < runs.len()
        invariant
            exponent <= MAX_SCALE,
            i <= runs@.len() <= SAMPLE_RUNS,
            forall|j: int| 0 <= j < runs@.len() ==> #[trigger] runs@[j]@.len() <= SAMPLE_RUN
                * SAMPLE_RUNS,
            models == views(runs@),
            cost == (|run: Seq<Point>| cost_of(run, exponent as nat)),
            bits == total(models.take(i as int), cost),
            bits <= 100_000 * i,
        decreases runs.len() - i,
    {
        let run: &[Point] = runs[i];
        proof {
            assert(run@ == runs@[i as int]@);
            lemma_cost_bound(run@, exponent as nat);
            assert(models.take(i + 1).drop_last() =~= models.take(i as int));
            assert(models.take(i + 1).last() == run@);
        }
        bits = bits + cost_bits(run, exponent);
        i = i + 1;
    }
    assert(models.take(i as int) =~= models);
    bits
}

/// The exponent whose sample runs cost least, and the smallest such.
pub fn choose_exponent(points: &[Point]) -> (exponent: u8)
    ensures
        exponent == exponent_of(points@),
        exponent <= MAX_SCALE,
{
    let runs: Vec<&[Point]> = sample_runs(points);
    let ghost price = |e: nat| sample_cost(points@, e);
    let mut best: u8 = 0;
    let mut best_bits: u64 = u64::MAX;
    let mut exponent: u8 = 0;
    proof {
        lemma_runs(points@);
        assert forall|i: int| 0 <= i < runs@.len() implies #[trigger] runs@[i]@.len() <= SAMPLE_RUN
            * SAMPLE_RUNS by {
            assert(runs@[i]@ == views(runs@)[i]);
        }
    }
    while exponent <= MAX_SCALE
        invariant
            exponent <= MAX_SCALE + 1,
            best <= MAX_SCALE,
            price == (|e: nat| sample_cost(points@, e)),
            views(runs@) == runs_of(points@),
            runs@.len() <= SAMPLE_RUNS,
            forall|i: int| 0 <= i < runs@.len() ==> #[trigger] runs@[i]@.len() <= SAMPLE_RUN
                * SAMPLE_RUNS,
            exponent == 0 ==> best_bits == u64::MAX && best == 0,
            exponent > 0 ==> best == cheapest(price, (exponent - 1) as nat),
            exponent > 0 ==> best_bits == price(best as nat),
        decreases MAX_SCALE + 1 - exponent,
    {
        let bits: u64 = runs_cost(&runs, exponent);
        assert(bits == price(exponent as nat));
        if bits < best_bits {
            best_bits = bits;
            best = exponent;
        }
        exponent = exponent + 1;
    }
    best
}

/// How patches are written, the one before them at `previous`: how far on each one is, and its
/// bit pattern.
pub open spec fn patch_bits(patches: Seq<(u64, u64)>, previous: u64) -> Seq<bool>
    decreases patches.len(),
{
    if patches.len() == 0 {
        Seq::empty()
    } else {
        let (index, value) = patches[0];
        bitseq::varint((index - previous) as nat) + (bitseq::bits_of(value as nat, 64)
            + patch_bits(patches.skip(1), index))
    }
}

/// How the patch list is written: a bit that says whether there is one, then how many patches
/// there are, then the patches.
pub open spec fn list_bits(patches: Seq<(u64, u64)>) -> Seq<bool> {
    if patches.len() == 0 {
        seq![false]
    } else {
        seq![true] + (bitseq::varint(patches.len()) + patch_bits(patches, 0))
    }
}

/// Takes `n` patches of a block of `count` points off the front of a stream. There are none when
/// one of them lies past the end of the block.
pub open spec fn take_patches(s: Seq<bool>, n: nat, previous: u64, count: u64) -> Option<
    (Seq<(u64, u64)>, Seq<bool>),
>
    decreases n,
{
    if n == 0 {
        Some((Seq::empty(), s))
    } else {
        match bitseq::take_varint(s) {
            None => None,
            Some((gap, rest)) => if previous + gap >= count {
                None
            } else {
                let index = (previous + gap) as u64;
                match bitseq::take_bits(rest, 64) {
                    None => None,
                    Some((value, rest)) => match take_patches(rest, (n - 1) as nat, index, count) {
                        None => None,
                        Some((patches, rest)) => Some((seq![(index, value)] + patches, rest)),
                    },
                }
            },
        }
    }
}

/// Takes the patch list of a block of `count` points off the front of a stream. There is none
/// when it has more patches than the block has points.
pub open spec fn take_list(s: Seq<bool>, count: u64) -> Option<(Seq<(u64, u64)>, Seq<bool>)> {
    match bitseq::take_bit(s) {
        None => None,
        Some((false, rest)) => Some((Seq::empty(), rest)),
        Some((true, rest)) => match bitseq::take_varint(rest) {
            None => None,
            Some((n, rest)) => if n > count {
                None
            } else {
                take_patches(rest, n as nat, 0, count)
            },
        },
    }
}

/// The points of a block with its patches put in, one after the other.
pub open spec fn patched(points: Seq<Point>, patches: Seq<(u64, u64)>) -> Seq<Point>
    decreases patches.len(),
{
    if patches.len() == 0 {
        points
    } else {
        let (index, value) = patches[0];
        let point = Point { timestamp: points[index as int].timestamp, value };
        patched(points.update(index as int, point), patches.skip(1))
    }
}

/// Whether patches follow each other in order, from `previous` on, inside a block.
pub open spec fn in_order(patches: Seq<(u64, u64)>, previous: u64, count: nat) -> bool
    decreases patches.len(),
{
    patches.len() > 0 ==> {
        &&& previous <= patches[0].0 < count
        &&& in_order(patches.skip(1), patches[0].0, count)
    }
}

/// Ascending positions inside a block are in order.
pub proof fn lemma_in_order(patches: Seq<(u64, u64)>, previous: u64, count: nat)
    requires
        forall|k: int| 0 <= k < patches.len() ==> previous <= #[trigger] patches[k].0 < count,
        forall|k: int, l: int|
            0 <= k < l < patches.len() ==> #[trigger] patches[k].0 < #[trigger] patches[l].0,
    ensures
        in_order(patches, previous, count),
    decreases patches.len(),
{
    if patches.len() > 0 {
        let tail = patches.skip(1);
        assert forall|k: int| 0 <= k < tail.len() implies patches[0].0 <= #[trigger] tail[k].0
            < count by {
            assert(tail[k] == patches[k + 1]);
        }
        lemma_in_order(tail, patches[0].0, count);
    }
}

/// Patches are read back from what was written for them.
proof fn lemma_take_patches(
    patches: Seq<(u64, u64)>,
    previous: u64,
    count: u64,
    rest: Seq<bool>,
)
    requires
        in_order(patches, previous, count as nat),
    ensures
        take_patches(patch_bits(patches, previous) + rest, patches.len(), previous, count) == Some(
            (patches, rest),
        ),
    decreases patches.len(),
{
    let s = patch_bits(patches, previous) + rest;
    if patches.len() == 0 {
        assert(s =~= rest);
        assert(patches =~= Seq::<(u64, u64)>::empty());
    } else {
        let (index, value) = patches[0];
        let gap = bitseq::varint((index - previous) as nat);
        let whole = bitseq::bits_of(value as nat, 64);
        let others = patch_bits(patches.skip(1), index);
        let tail = others + rest;
        let after = whole + tail;
        assert(s == gap + after) by {
            bitseq::lemma_join(gap, whole + others, rest);
            bitseq::lemma_join(whole, others, rest);
        }
        bitseq::lemma_take_varint((index - previous) as u64, after);
        lemma2_to64_rest();
        bitseq::lemma_take_bits(value, 64, tail);
        lemma_take_patches(patches.skip(1), index, count, rest);
        assert(seq![(index, value)] + patches.skip(1) =~= patches);
    }
}

/// A patch list is read back from what was written for it.
pub proof fn lemma_take_list(patches: Seq<(u64, u64)>, count: u64, rest: Seq<bool>)
    requires
        patches.len() <= count,
        in_order(patches, 0, count as nat),
    ensures
        take_list(list_bits(patches) + rest, count) == Some((patches, rest)),
{
    let s = list_bits(patches) + rest;
    if patches.len() == 0 {
        assert(s.skip(1) =~= rest);
        assert(patches =~= Seq::<(u64, u64)>::empty());
    } else {
        let tail = patch_bits(patches, 0) + rest;
        assert(s.skip(1) =~= bitseq::varint(patches.len()) + tail);
        bitseq::lemma_take_varint(patches.len() as u64, tail);
        lemma_take_patches(patches, 0, count, rest);
    }
}

/// What patches change: the values at their positions, and nothing else.
proof fn lemma_patched(points: Seq<Point>, patches: Seq<(u64, u64)>)
    requires
        forall|k: int| 0 <= k < patches.len() ==> #[trigger] patches[k].0 < points.len(),
        forall|k: int, l: int|
            0 <= k < l < patches.len() ==> #[trigger] patches[k].0 < #[trigger] patches[l].0,
    ensures
        patched(points, patches).len() == points.len(),
        forall|i: int|
            0 <= i < points.len() ==> (#[trigger] patched(points, patches)[i]).timestamp
                == points[i].timestamp,
        forall|i: int|
            0 <= i < points.len() && (forall|k: int|
                0 <= k < patches.len() ==> #[trigger] patches[k].0 != i) ==> #[trigger] patched(
                points,
                patches,
            )[i] == points[i],
        forall|k: int|
            0 <= k < patches.len() ==> patched(
                points,
                patches,
            )[(#[trigger] patches[k]).0 as int].value == patches[k].1,
    decreases patches.len(),
{
    if patches.len() > 0 {
        let (index, value) = patches[0];
        let point = Point { timestamp: points[index as int].timestamp, value };
        let next = points.update(index as int, point);
        let tail = patches.skip(1);
        assert forall|k: int| 0 <= k < tail.len() implies #[trigger] tail[k].0 < next.len() by {
            assert(tail[k] == patches[k + 1]);
        }
        assert forall|k: int, l: int| 0 <= k < l < tail.len() implies #[trigger] tail[k].0
            < #[trigger] tail[l].0 by {
            assert(tail[k] == patches[k + 1] && tail[l] == patches[l + 1]);
        }
        lemma_patched(next, tail);
        let end = patched(points, patches);
        assert forall|i: int|
            0 <= i < points.len() && (forall|k: int|
                0 <= k < patches.len() ==> #[trigger] patches[k].0 != i) implies #[trigger] end[i]
            == points[i] by {
            assert(patches[0].0 != i);
            assert forall|k: int| 0 <= k < tail.len() implies #[trigger] tail[k].0 != i by {
                assert(tail[k] == patches[k + 1]);
            }
        }
        assert forall|k: int| 0 <= k < patches.len() implies end[(
        #[trigger] patches[k]).0 as int].value == patches[k].1 by {
            if k > 0 {
                assert(tail[k - 1] == patches[k]);
            } else {
                assert forall|l: int| 0 <= l < tail.len() implies #[trigger] tail[l].0 != index by {
                    assert(tail[l] == patches[l + 1]);
                }
                assert(end[index as int] == next[index as int]);
            }
        }
    }
}

/// The integers and the patches of a block together give back its points.
pub proof fn lemma_patches_restore(points: Seq<Point>, e: nat)
    requires
        points.len() <= u64::MAX,
    ensures
        patched(
            decimal::readings(codec::timestamps(points).zip_with(integers_of(points, e)), e),
            exceptions_of(points, e),
        ) == points,
        in_order(exceptions_of(points, e), 0, points.len()),
        exceptions_of(points, e).len() <= points.len(),
{
    let pairs = codec::timestamps(points).zip_with(integers_of(points, e));
    let base = decimal::readings(pairs, e);
    let patches = exceptions_of(points, e);
    lemma_exceptions(points, e);
    lemma_in_order(patches, 0, points.len());
    lemma_patched(base, patches);
    assert forall|i: int| 0 <= i < points.len() implies #[trigger] patched(base, patches)[i]
        == points[i] by {
        assert(base[i].timestamp == points[i].timestamp);
        if decimal::scaled_of(points[i].value, e) is None {
            let k = lemma_exception_at(points, e, i);
            assert(patches[k].0 == i);
        } else {
            decimal::lemma_scaled(points[i].value, e);
            assert(filled(points, e, (i + 1) as nat) == decimal::scaled_of(
                points[i].value,
                e,
            )->Some_0);
            assert(base[i] == points[i]);
            assert forall|k: int| 0 <= k < patches.len() implies #[trigger] patches[k].0 != i by {
                assert(decimal::scaled_of(patches[k].1, e) is None);
            }
        }
    }
    assert(patched(base, patches) =~= points);
}

/// Appends a patch list.
pub(crate) fn write_list(w: &mut BitWriter, patches: &[(u64, u64)])
    requires
        old(w).wf(),
        in_order(patches@, 0, u64::MAX as nat),
    ensures
        final(w).wf(),
        final(w)@ == old(w)@ + list_bits(patches@),
{
    if patches.len() == 0 {
        w.write_bit(false);
        assert(w@ =~= old(w)@ + list_bits(patches@));
        return ;
    }
    let ghost goal = w@ + list_bits(patches@);
    w.write_bit(true);
    w.write_varint(patches.len() as u64);
    let mut previous: u64 = 0;
    let mut i: usize = 0;
    assert(patches@.skip(0) =~= patches@);
    assert(w@ + patch_bits(patches@.skip(0), 0) =~= goal);
    while i < patches.len()
        invariant
            w.wf(),
            i <= patches.len(),
            in_order(patches@.skip(i as int), previous, u64::MAX as nat),
            w@ + patch_bits(patches@.skip(i as int), previous) == goal,
        decreases patches.len() - i,
    {
        let (index, value): (u64, u64) = patches[i];
        let ghost before = w@;
        let ghost tail = patches@.skip(i as int);
        assert(tail.skip(1) =~= patches@.skip(i + 1));
        w.write_varint(index - previous);
        w.write_bits(value, 64);
        assert(w@ + patch_bits(tail.skip(1), index) =~= before + patch_bits(tail, previous));
        previous = index;
        i = i + 1;
    }
    assert(patches@.skip(i as int).len() == 0);
    assert(w@ =~= goal);
}

/// Reads the patch list of a block of `count` points.
pub(crate) fn read_list(r: &mut BitReader, count: u64) -> (result: Result<Vec<(u64, u64)>, Error>)
    requires
        old(r).wf(),
    ensures
        final(r).wf(),
        match take_list(old(r)@, count) {
            None => result == Err::<Vec<(u64, u64)>, Error>(Error::MalformedBlock),
            Some((patches, rest)) => {
                &&& result matches Ok(read)
                &&& read@ == patches
                &&& final(r)@ == rest
                &&& forall|k: int| 0 <= k < patches.len() ==> #[trigger] patches[k].0 < count
            },
        },
{
    let ghost start = r@;
    let mut patches: Vec<(u64, u64)> = Vec::new();
    if !r.read_bit()? {
        assert(patches@ =~= Seq::<(u64, u64)>::empty());
        return Ok(patches);
    }
    let n: u64 = r.read_varint()?;
    if n > count {
        return Err(Error::MalformedBlock);
    }
    let mut index: u64 = 0;
    let mut left: u64 = n;
    let ghost goal = take_list(start, count);
    proof {
        if let Some((more, rest)) = take_patches(r@, n as nat, 0, count) {
            assert(patches@ + more =~= more);
        }
    }
    while left > 0
        invariant
            r.wf(),
            start == old(r)@,
            goal == take_list(start, count),
            goal == (match take_patches(r@, left as nat, index, count) {
                None => None,
                Some((more, rest)) => Some((patches@ + more, rest)),
            }),
            forall|k: int| 0 <= k < patches@.len() ==> #[trigger] patches@[k].0 < count,
        decreases left,
    {
        let ghost before = patches@;
        let gap: u64 = r.read_varint()?;
        index = match index.checked_add(gap) {
            None => {
                return Err(Error::MalformedBlock);
            },
            Some(sum) => sum,
        };
        if index >= count {
            return Err(Error::MalformedBlock);
        }
        let value: u64 = r.read_bits(64)?;
        patches.push((index, value));
        left = left - 1;
        proof {
            if let Some((more, rest)) = take_patches(r@, left as nat, index, count) {
                assert(before + (seq![(index, value)] + more) =~= patches@ + more);
            }
        }
    }
    assert(patches@ + Seq::<(u64, u64)>::empty() =~= patches@);
    Ok(patches)
}

/// Puts patches into a block, one after the other.
pub(crate) fn apply(points: &mut Vec<Point>, patches: &[(u64, u64)])
    requires
        forall|k: int| 0 <= k < patches@.len() ==> #[trigger] patches@[k].0 < old(points)@.len(),
    ensures
        final(points)@ == patched(old(points)@, patches@),
{
    let mut i: usize = 0;
    assert(patches@.skip(0) =~= patches@);
    while i < patches.len()
        invariant
            i <= patches.len(),
            points@.len() == old(points)@.len(),
            forall|k: int| 0 <= k < patches@.len() ==> #[trigger] patches@[k].0 < points@.len(),
            patched(points@, patches@.skip(i as int)) == patched(old(points)@, patches@),
        decreases patches.len() - i,
    {
        let (index, value): (u64, u64) = patches[i];
        assert(patches@[i as int].0 < points.len());
        let at: usize = index as usize;
        let timestamp: i64 = points[at].timestamp;
        assert(patches@.skip(i as int).skip(1) =~= patches@.skip(i + 1));
        points.set(at, Point { timestamp, value });
        i = i + 1;
    }
    assert(patches@.skip(i as int).len() == 0);
}

/// The stream of a block at exponent `e`.
pub open spec fn stream(points: Seq<Point>, e: nat) -> Seq<bool> {
    let header = bitseq::varint(points.len()) + bitseq::bits_of(e, 8);
    if points.len() == 0 {
        header
    } else {
        header + (list_bits(exceptions_of(points, e)) + decimal::scaled_bits(
            codec::timestamps(points),
            integers_of(points, e),
        ))
    }
}

/// Takes the points of a block off the front of a stream.
pub open spec fn taken(s: Seq<bool>) -> Option<(Seq<Point>, Seq<bool>)> {
    match bitseq::take_varint(s) {
        None => None,
        Some((count, rest)) => match bitseq::take_bits(rest, 8) {
            None => None,
            Some((e, rest)) => if e > MAX_SCALE {
                None
            } else if count == 0 {
                Some((Seq::empty(), rest))
            } else {
                match take_list(rest, count) {
                    None => None,
                    Some((patches, rest)) => match decimal::take_scaled(rest, count as nat) {
                        None => None,
                        Some((pairs, rest)) => Some(
                            (patched(decimal::readings(pairs, e as nat), patches), rest),
                        ),
                    },
                }
            },
        },
    }
}

/// The points that a stream stands for.
pub open spec fn parsed(s: Seq<bool>) -> Option<Seq<Point>> {
    match taken(s) {
        None => None,
        Some((points, rest)) => Some(points),
    }
}

/// The points of a block are read back from its stream, whatever follows it.
pub proof fn lemma_roundtrip(points: Seq<Point>, e: nat, rest: Seq<bool>)
    requires
        points.len() <= u32::MAX,
        e <= MAX_SCALE,
    ensures
        taken(stream(points, e) + rest) == Some((points, rest)),
{
    let count = points.len() as u64;
    let times = codec::timestamps(points);
    let integers = integers_of(points, e);
    let patches = exceptions_of(points, e);
    let third = decimal::scaled_bits(times, integers) + rest;
    let body = if points.len() == 0 {
        rest
    } else {
        list_bits(patches) + third
    };
    let second = bitseq::bits_of(e, 8) + body;
    assert(stream(points, e) + rest =~= bitseq::varint(count as nat) + second);
    bitseq::lemma_take_varint(count, second);
    lemma2_to64();
    bitseq::lemma_take_bits(e as u64, 8, body);
    if points.len() == 0 {
        assert(points =~= Seq::<Point>::empty());
    } else {
        lemma_patches_restore(points, e);
        lemma_take_list(patches, count, third);
        decimal::lemma_take_scaled(times, integers, rest);
    }
}

/// Whether a block has too many patches at exponent `e` to be worth patching.
pub open spec fn falls_back(points: Seq<Point>, e: nat) -> bool {
    exceptions_of(points, e).len() * MAX_EXCEPTIONS_PER > points.len()
}

impl Codec for Alp {
    open spec fn tag_of(&self, points: Seq<Point>) -> u8 {
        if falls_back(points, exponent_of(points)) {
            TAG_GORILLA
        } else {
            TAG_ALP
        }
    }

    open spec fn stream_of(&self, points: Seq<Point>) -> Seq<bool> {
        if falls_back(points, exponent_of(points)) {
            gorilla::stream(points)
        } else {
            stream(points, exponent_of(points))
        }
    }

    open spec fn called(&self) -> Seq<char> {
        "alp"@
    }

    fn name(&self) -> &'static str {
        "alp"
    }

    fn encode(&self, points: &[Point]) -> Result<Vec<u8>, Error> {
        codec::check_count(points.len())?;
        let exponent: u8 = choose_exponent(points);
        let (integers, exceptions) = split(points, exponent);
        assert(exceptions@.len() <= points@.len()) by {
            lemma_exceptions(points@, exponent as nat);
        }
        if exceptions.len() as u64 * MAX_EXCEPTIONS_PER > points.len() as u64 {
            return Gorilla.encode(points);
        }
        let block: Vec<u8> = written(
            points,
            exponent,
            integers.as_slice(),
            exceptions.as_slice(),
        );
        proof {
            codec::lemma_alp_lossless(points@, block@);
        }
        Ok(block)
    }
}

/// The block that holds `points` at `exponent`, with their integers and their patches.
fn written(
    points: &[Point],
    exponent: u8,
    integers: &[i64],
    exceptions: &[(u64, u64)],
) -> (block: Vec<u8>)
    requires
        points@.len() <= u32::MAX,
        exponent <= MAX_SCALE,
        integers@ == integers_of(points@, exponent as nat),
        exceptions@ == exceptions_of(points@, exponent as nat),
    ensures
        codec::is_block(block@, TAG_ALP, stream(points@, exponent as nat)),
{
    let mut w = BitWriter::with_capacity(points.len());
    w.write_varint(points.len() as u64);
    w.write_bits(exponent as u64, 8);
    if points.len() > 0 {
        proof {
            lemma_exceptions(points@, exponent as nat);
            lemma_in_order(exceptions@, 0, u64::MAX as nat);
        }
        write_list(&mut w, exceptions);
        decimal::write_scaled(&mut w, points, integers);
    }
    assert(w@ =~= stream(points@, exponent as nat));
    codec::seal(TAG_ALP, w)
}

/// The points that the body of an ALP block stands for.
pub fn decode(body: &[u8]) -> (result: Result<Vec<Point>, Error>)
    ensures
        codec::decodes(parsed(bitseq::unpack(body@)), result),
{
    let mut r = BitReader::new(body);
    let count: u64 = r.read_varint()?;
    let exponent: u64 = r.read_bits(8)?;
    if exponent > MAX_SCALE as u64 {
        return Err(Error::MalformedBlock);
    }
    if count == 0 {
        let points: Vec<Point> = Vec::new();
        assert(points@ =~= Seq::<Point>::empty());
        return Ok(points);
    }
    let exceptions: Vec<(u64, u64)> = read_list(&mut r, count)?;
    let mut points: Vec<Point> = decimal::read_scaled(&mut r, count, exponent as u8)?;
    apply(&mut points, exceptions.as_slice());
    Ok(points)
}

/// Patches taken off the front of a stream are taken off the front of any longer one alike, and
/// lie inside the block.
proof fn lemma_extend_patches(
    s: Seq<bool>,
    n: nat,
    previous: u64,
    count: u64,
    more: Seq<bool>,
)
    ensures
        take_patches(s, n, previous, count) matches Some((patches, rest)) ==> {
            &&& take_patches(s + more, n, previous, count) == Some((patches, rest + more))
            &&& in_order(patches, previous, count as nat)
        },
    decreases n,
{
    if n > 0 {
        bitseq::lemma_extend_varint(s, more);
        if let Some((gap, rest)) = bitseq::take_varint(s) {
            if previous + gap < count {
                let index = (previous + gap) as u64;
                bitseq::lemma_extend_bits(rest, 64, more);
                if let Some((value, rest)) = bitseq::take_bits(rest, 64) {
                    lemma_extend_patches(rest, (n - 1) as nat, index, count, more);
                    if let Some((patches, rest)) = take_patches(
                        rest,
                        (n - 1) as nat,
                        index,
                        count,
                    ) {
                        assert((seq![(index, value)] + patches).skip(1) =~= patches);
                    }
                }
            }
        }
    }
}

/// A patch list taken off the front of a stream is taken off the front of any longer one alike,
/// and lies inside the block.
pub proof fn lemma_extend_list(s: Seq<bool>, count: u64, more: Seq<bool>)
    ensures
        take_list(s, count) matches Some((patches, rest)) ==> {
            &&& take_list(s + more, count) == Some((patches, rest + more))
            &&& in_order(patches, 0, count as nat)
        },
{
    bitseq::lemma_extend_bits(s, 0, more);
    if let Some((some, rest)) = bitseq::take_bit(s) {
        bitseq::lemma_extend_varint(rest, more);
        if let Some((n, rest)) = bitseq::take_varint(rest) {
            lemma_extend_patches(rest, n as nat, 0, count, more);
        }
    }
}

/// Patches change no point's timestamp, and the number of points not at all.
pub proof fn lemma_patched_len(points: Seq<Point>, patches: Seq<(u64, u64)>, previous: u64)
    requires
        in_order(patches, previous, points.len()),
    ensures
        patched(points, patches).len() == points.len(),
        codec::timestamps(patched(points, patches)) == codec::timestamps(points),
    decreases patches.len(),
{
    if patches.len() > 0 {
        let (index, value) = patches[0];
        let point = Point { timestamp: points[index as int].timestamp, value };
        let next = points.update(index as int, point);
        lemma_patched_len(next, patches.skip(1), index);
        assert(codec::timestamps(next) =~= codec::timestamps(points));
    }
}

/// The point count says where a stream ends: what follows it changes nothing, and it stands for
/// as many points as it says.
pub proof fn lemma_count(s: Seq<bool>, more: Seq<bool>)
    ensures
        taken(s) matches Some((points, rest)) ==> {
            &&& taken(s + more) == Some((points, rest + more))
            &&& bitseq::take_varint(s) matches Some((count, _)) && count == points.len()
        },
{
    bitseq::lemma_extend_varint(s, more);
    if let Some((count, rest)) = bitseq::take_varint(s) {
        bitseq::lemma_extend_bits(rest, 8, more);
        if let Some((e, rest)) = bitseq::take_bits(rest, 8) {
            lemma_extend_list(rest, count, more);
            if let Some((patches, rest)) = take_list(rest, count) {
                if count > 0 {
                    decimal::lemma_extend_scaled(rest, count as nat, more);
                    if let Some((pairs, rest)) = decimal::take_scaled(rest, count as nat) {
                        lemma_patched_len(decimal::readings(pairs, e as nat), patches, 0);
                    }
                }
            }
        }
    }
}

/// A patched reading repeats the integer before it, so that it lands as a zero delta; before
/// any reading has scaled, the integer is zero.
pub proof fn lemma_fill_forward(points: Seq<Point>, e: nat, i: int)
    requires
        0 <= i < points.len(),
        decimal::scaled_of(points[i].value, e) is None,
    ensures
        integers_of(points, e)[i] == (if i == 0 { 0 } else { integers_of(points, e)[i - 1] }),
{
    assert(filled(points, e, (i + 1) as nat) == filled(points, e, i as nat));
}

/// A block has no patches at an exponent exactly when all its readings scale there, and its
/// integers are then those of the decimal codec.
pub proof fn lemma_no_patches(points: Seq<Point>, e: nat)
    requires
        points.len() <= u64::MAX,
    ensures
        exceptions_of(points, e).len() == 0 <==> decimal::scales(points, e),
        decimal::scales(points, e) ==> integers_of(points, e) == decimal::integers_of(points, e),
{
    lemma_exceptions(points, e);
    if decimal::scales(points, e) {
        if exceptions_of(points, e).len() > 0 {
            let patch = exceptions_of(points, e)[0];
            assert(decimal::scaled_of(points[patch.0 as int].value, e) is Some);
        }
        assert forall|i: int| 0 <= i < points.len() implies integers_of(points, e)[i]
            == decimal::integers_of(points, e)[i] by {
            assert(decimal::scaled_of(points[i].value, e) is Some);
        }
        assert(integers_of(points, e) =~= decimal::integers_of(points, e));
    } else {
        let i = choose|i: int|
            0 <= i < points.len() && !(#[trigger] decimal::scaled_of(points[i].value, e) is Some);
        let k = lemma_exception_at(points, e, i);
    }
}

/// Where all readings scale, the block is one bit longer than the decimal block at that
/// exponent: the bit that says there are no patches.
pub proof fn lemma_one_bit_more(points: Seq<Point>, e: nat)
    requires
        0 < points.len() <= u64::MAX,
        decimal::scales(points, e),
    ensures
        stream(points, e).len() == decimal::stream(points, e).len() + 1,
{
    lemma_no_patches(points, e);
}

/// A patch costs what it is priced at, or more where it is 128 points or further from the one
/// before.
pub proof fn lemma_patch_price(patches: Seq<(u64, u64)>, previous: u64, count: nat)
    requires
        in_order(patches, previous, count),
    ensures
        patch_bits(patches, previous).len() >= EXCEPTION_BITS * patches.len(),
        (forall|k: int|
            0 <= k < patches.len() ==> (#[trigger] patches[k]).0 - (if k == 0 {
                previous
            } else {
                patches[k - 1].0
            }) < 128) ==> patch_bits(patches, previous).len() == EXCEPTION_BITS * patches.len(),
    decreases patches.len(),
{
    if patches.len() > 0 {
        let (index, value) = patches[0];
        let tail = patches.skip(1);
        lemma_patch_price(tail, index, count);
        bitseq::lemma_varint_len((index - previous) as nat);
        bitseq::lemma_bits_of_len(value as nat, 64);
        if forall|k: int|
            0 <= k < patches.len() ==> (#[trigger] patches[k]).0 - (if k == 0 {
                previous
            } else {
                patches[k - 1].0
            }) < 128 {
            assert(patches[0].0 - previous < 128);
            bitseq::lemma_bits_of_len((index - previous) as nat, 8);
            assert forall|k: int| 0 <= k < tail.len() implies (#[trigger] tail[k]).0 - (if k == 0 {
                index
            } else {
                tail[k - 1].0
            }) < 128 by {
                assert(tail[k] == patches[k + 1]);
            }
        }
    }
}

/// How long a block's stream is: a part that no exponent changes, the patch list, and the values
/// that a run is priced by.
pub proof fn lemma_stream_len(points: Seq<Point>, e: nat)
    requires
        points.len() > 0,
    ensures
        stream(points, e).len() == bitseq::varint(points.len()).len() + 8 + bitseq::varint(
            bitseq::zigzag_of(points[0].timestamp) as nat,
        ).len() + dod::stream_bits(
            Dod::start(points[0].timestamp),
            codec::timestamps(points).skip(1),
        ).len() + list_bits(exceptions_of(points, e)).len() + value_bits(
            integers_of(points, e),
        ).len(),
{
    let times = codec::timestamps(points);
    let integers = integers_of(points, e);
    bitseq::lemma_bits_of_len(e, 8);
    dod::lemma_pair_len(
        Dod::start(times[0]),
        Dod::start(integers[0]),
        times.skip(1),
        integers.skip(1),
    );
}

/// A short block is priced whole.
pub proof fn lemma_short_block(points: Seq<Point>, cost: spec_fn(Seq<Point>) -> nat)
    requires
        points.len() <= SAMPLE_RUN * SAMPLE_RUNS,
    ensures
        total(runs_of(points), cost) == cost(points),
{
    reveal_with_fuel(total, 2);
    assert(runs_of(points).drop_last().len() == 0);
}

/// The cost of one point: the integer where it scales, and a zero and a patch where not.
proof fn lemma_cost_of_one(points: Seq<Point>, e: nat)
    requires
        points.len() == 1,
    ensures
        sample_cost(points, e) == (match decimal::scaled_of(points[0].value, e) {
            Some(integer) => bitseq::varint(bitseq::zigzag_of(integer) as nat).len(),
            None => 80,
        }),
        decimal::scaled_of(points[0].value, e) is Some ==> sample_cost(points, e) <= 64,
        decimal::scales(points, e) <==> decimal::scaled_of(points[0].value, e) is Some,
{
    let integers = integers_of(points, e);
    lemma_short_block(points, |run: Seq<Point>| cost_of(run, e));
    reveal_with_fuel(filled, 2);
    reveal_with_fuel(exceptions_of, 2);
    assert(integers.skip(1).len() == 0);
    bitseq::lemma_one_byte(0);
    if decimal::scales(points, e) {
        assert(decimal::scaled_of(points[0].value, e) is Some);
    }
    if let Some(integer) = decimal::scaled_of(points[0].value, e) {
        decimal::lemma_scaled(points[0].value, e);
        let folded = bitseq::zigzag_of(integer) as nat;
        bitseq::lemma_varint_len(folded);
        lemma2_to64();
        lemma2_to64_rest();
        binary64::lemma_bit_length(0x40_0000_0000_0000, 55);
        bitseq::lemma_bit_length_grows(folded, 0x40_0000_0000_0000);
    }
}

/// A block of at most one point has the smallest exponent at which it scales, and zero where it
/// does not scale at all.
pub proof fn lemma_exponent_of_one(points: Seq<Point>)
    requires
        points.len() <= 1,
    ensures
        exponent_of(points) == (match decimal::scale_from(points, 0) {
            Some(e) => e,
            None => 0,
        }),
{
    let chosen = exponent_of(points);
    lemma_exponent(points);
    decimal::lemma_scale(points, 0);
    if points.len() == 0 {
        lemma_short_block(points, |run: Seq<Point>| cost_of(run, 0));
        lemma_short_block(points, |run: Seq<Point>| cost_of(run, chosen));
        assert(sample_cost(points, 0) == 0);
        assert(decimal::scales(points, 0));
    } else {
        let value = points[0].value;
        lemma_cost_of_one(points, chosen);
        match decimal::scale_from(points, 0) {
            None => {
                lemma_cost_of_one(points, 0);
                assert(!decimal::scales(points, 0) && !decimal::scales(points, chosen));
                assert(sample_cost(points, 0) == sample_cost(points, chosen));
            },
            Some(e) => {
                lemma_cost_of_one(points, e);
                assert(sample_cost(points, chosen) <= sample_cost(points, e));
                assert(decimal::scales(points, chosen));
                assert(e <= chosen);
                decimal::lemma_grows(value, e, chosen);
                let small = bitseq::zigzag_of(decimal::scaled_of(value, e)->Some_0) as nat;
                let large = bitseq::zigzag_of(decimal::scaled_of(value, chosen)->Some_0) as nat;
                bitseq::lemma_varint_len(small);
                bitseq::lemma_varint_len(large);
                bitseq::lemma_bit_length_grows(small, large);
                assert(sample_cost(points, e) <= sample_cost(points, chosen));
            },
        }
    }
}

} // verus!
