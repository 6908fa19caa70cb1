//! Packed: the integers of an ALP block by frame of reference and bitpacking.
//!
//! Delta-of-delta is variable-length: a repeated interval costs one bit, an unusual one a prefix
//! and a bucket. Here the first differences are cut into vectors, and every value of a vector
//! pays whatever its widest value needs. One outlier taxes the rest of its vector, but nobody
//! pays a prefix. The exponent search, the patch list and the fallback are those of ALP, and so
//! are the timestamps; only the values are written differently.

use crate::bits::{BitReader, BitWriter};
use crate::bitseq;
use crate::codec;
use crate::codec::alp;
use crate::codec::alp::EXCEPTION_BITS;
use crate::codec::alp::MAX_EXCEPTIONS_PER;
use crate::codec::decimal;
use crate::codec::decimal::MAX_SCALE;
use crate::codec::dod;
use crate::codec::dod::Dod;
use crate::codec::gorilla;
use crate::codec::gorilla::Gorilla;
use crate::codec::{Codec, TAG_GORILLA, TAG_PACKED};
use crate::error::Error;
use crate::point::Point;
use vstd::arithmetic::power2::*;
use vstd::prelude::*;

verus! {

/// How many values share a frame.
pub const VECTOR: usize = 1024;

/// How many bits the width of a vector takes. It runs from 0 to 64, and zero is reachable: a
/// vector of identical deltas stores no value bits at all.
pub const WIDTH_BITS: u32 = 7;

/// The packed codec.
pub struct Packed;

/// The first differences of a run of integers.
pub open spec fn deltas_of(integers: Seq<i64>) -> Seq<i64> {
    Seq::new(
        (if integers.len() == 0 { 0 } else { integers.len() - 1 }) as nat,
        |i: int| integers[i + 1].wrapping_sub(integers[i]),
    )
}

/// The integers that differences lead to from `previous` on.
pub open spec fn running(previous: i64, deltas: Seq<i64>) -> Seq<i64>
    decreases deltas.len(),
{
    if deltas.len() == 0 {
        Seq::empty()
    } else {
        let next = previous.wrapping_add(deltas[0]);
        seq![next] + running(next, deltas.skip(1))
    }
}

/// The smallest value of a vector.
pub open spec fn least(vector: Seq<i64>) -> i64
    decreases vector.len(),
{
    if vector.len() <= 1 {
        vector[0]
    } else {
        let before = least(vector.drop_last());
        if vector.last() < before {
            vector.last()
        } else {
            before
        }
    }
}

/// The largest distance of a value of a vector from `reference`.
pub open spec fn span(vector: Seq<i64>, reference: i64) -> u64
    decreases vector.len(),
{
    if vector.len() == 0 {
        0
    } else {
        let before = span(vector.drop_last(), reference);
        let here = (vector.last() - reference) as u64;
        if here > before {
            here
        } else {
            before
        }
    }
}

/// The width of a vector: how many bits its largest distance from its smallest value takes.
pub open spec fn width_of(vector: Seq<i64>) -> nat {
    bitseq::bit_length(span(vector, least(vector)) as nat)
}

/// How values are written in `width` bits each, by their distance from `reference`.
pub open spec fn residual_bits(deltas: Seq<i64>, reference: i64, width: nat) -> Seq<bool>
    decreases deltas.len(),
{
    if deltas.len() == 0 {
        Seq::empty()
    } else {
        bitseq::bits_of((deltas[0] - reference) as nat, width) + residual_bits(
            deltas.skip(1),
            reference,
            width,
        )
    }
}

/// How a vector is written: its smallest value, its width, and its values.
pub open spec fn vector_bits(vector: Seq<i64>) -> Seq<bool> {
    bitseq::varint(bitseq::zigzag_of(least(vector)) as nat) + (bitseq::bits_of(
        width_of(vector),
        WIDTH_BITS as nat,
    ) + residual_bits(vector, least(vector), width_of(vector)))
}

/// How long the next vector is when `remaining` values are left.
pub open spec fn vector_len(remaining: nat) -> nat {
    if remaining < VECTOR {
        remaining
    } else {
        VECTOR as nat
    }
}

/// How differences are written, vector by vector.
pub open spec fn packed_bits(deltas: Seq<i64>) -> Seq<bool>
    decreases deltas.len(),
{
    if deltas.len() == 0 {
        Seq::empty()
    } else {
        let len = vector_len(deltas.len()) as int;
        vector_bits(deltas.take(len)) + packed_bits(deltas.skip(len))
    }
}

/// Takes `n` integers off the front of a stream, by their differences from the ones before.
pub open spec fn take_residuals(
    s: Seq<bool>,
    n: nat,
    reference: i64,
    width: nat,
    previous: i64,
) -> Option<(Seq<i64>, Seq<bool>)>
    decreases n,
{
    if n == 0 {
        Some((Seq::empty(), s))
    } else {
        match bitseq::take_bits(s, width) {
            None => None,
            Some((residual, rest)) => {
                let delta = reference.wrapping_add(bitseq::untwos(residual));
                let next = previous.wrapping_add(delta);
                match take_residuals(rest, (n - 1) as nat, reference, width, next) {
                    None => None,
                    Some((more, rest)) => Some((seq![next] + more, rest)),
                }
            },
        }
    }
}

/// Takes `remaining` integers off the front of a stream, vector by vector. There are none when a
/// width exceeds 64.
pub open spec fn take_vectors(s: Seq<bool>, remaining: nat, previous: i64) -> Option<
    (Seq<i64>, Seq<bool>),
>
    decreases remaining,
{
    if remaining == 0 {
        Some((Seq::empty(), s))
    } else {
        let len = vector_len(remaining);
        match bitseq::take_signed(s) {
            None => None,
            Some((reference, rest)) => match bitseq::take_bits(rest, WIDTH_BITS as nat) {
                None => None,
                Some((width, rest)) => if width > 64 {
                    None
                } else {
                    match take_residuals(rest, len, reference, width as nat, previous) {
                        None => None,
                        Some((values, rest)) => match take_vectors(
                            rest,
                            (remaining - len) as nat,
                            values.last(),
                        ) {
                            None => None,
                            Some((more, rest)) => Some((values + more, rest)),
                        },
                    }
                },
            },
        }
    }
}

/// What differences cost, vector by vector: a word for the smallest value, the width, and the
/// values.
pub open spec fn vectors_cost(deltas: Seq<i64>) -> nat
    decreases deltas.len(),
{
    if deltas.len() == 0 {
        0
    } else {
        let len = vector_len(deltas.len()) as int;
        width_of(deltas.take(len)) * len as nat + 64 + WIDTH_BITS as nat + vectors_cost(
            deltas.skip(len),
        )
    }
}

/// What the values of a run cost at exponent `e`, patches included.
pub open spec fn cost_of(points: Seq<Point>, e: nat) -> nat {
    vectors_cost(deltas_of(alp::integers_of(points, e))) + alp::exceptions_of(points, e).len()
        * EXCEPTION_BITS as nat
}

/// What the sample runs of a block cost at exponent `e`.
pub open spec fn sample_cost(points: Seq<Point>, e: nat) -> nat {
    alp::total(alp::runs_of(points), |run: Seq<Point>| cost_of(run, e))
}

/// The exponent of a block.
pub open spec fn exponent_of(points: Seq<Point>) -> nat {
    alp::cheapest(|e: nat| sample_cost(points, e), MAX_SCALE as nat)
}

/// No exponent prices the sample runs of a block lower than the one chosen for it, and ties go
/// to the smallest.
pub proof fn lemma_exponent(points: Seq<Point>)
    ensures
        exponent_of(points) <= MAX_SCALE,
        forall|e: nat|
            e <= MAX_SCALE ==> sample_cost(points, exponent_of(points)) <= #[trigger] sample_cost(
                points,
                e,
            ),
        forall|e: nat|
            e < exponent_of(points) ==> sample_cost(points, exponent_of(points))
                < #[trigger] sample_cost(points, e),
{
    let cost = |e: nat| sample_cost(points, e);
    alp::lemma_cheapest(cost, MAX_SCALE as nat);
    assert forall|e: nat| e <= MAX_SCALE implies sample_cost(points, exponent_of(points))
        <= #[trigger] sample_cost(points, e) by {
        assert(cost(exponent_of(points)) <= cost(e));
    }
    assert forall|e: nat| e < exponent_of(points) implies sample_cost(points, exponent_of(points))
        < #[trigger] sample_cost(points, e) by {
        assert(cost(exponent_of(points)) < cost(e));
    }
}

/// The frame of a vector: its smallest value is one of its values, no distance from it needs
/// more bits than the width, and one of them needs that many.
pub proof fn lemma_frame(vector: Seq<i64>)
    requires
        vector.len() > 0,
    ensures
        vector.contains(least(vector)),
        forall|i: int|
            0 <= i < vector.len() ==> least(vector) <= #[trigger] vector[i] && vector[i] - least(
                vector,
            ) < pow2(width_of(vector)),
        width_of(vector) <= 64,
        width_of(vector) > 0 ==> exists|i: int|
            0 <= i < vector.len() && #[trigger] vector[i] - least(vector) >= pow2(
                (width_of(vector) - 1) as nat,
            ),
{
    lemma_least(vector);
    let low = least(vector);
    let at = choose|i: int| 0 <= i < vector.len() && vector[i] == low;
    lemma_span(vector, low);
    let wide = span(vector, low);
    crate::binary64::lemma_bit_length_bounds(wide as nat);
    bitseq::lemma_leading_zeros(wide);
    assert(vector[at] == low);
    if wide > 0 {
        let i = choose|i: int| 0 <= i < vector.len() && #[trigger] vector[i] - low == wide;
        assert(vector[i] - low >= pow2((width_of(vector) - 1) as nat));
    }
}

/// The smallest value of a vector is one of its values, and none is smaller.
proof fn lemma_least(vector: Seq<i64>)
    requires
        vector.len() > 0,
    ensures
        exists|i: int| 0 <= i < vector.len() && vector[i] == least(vector),
        forall|i: int| 0 <= i < vector.len() ==> least(vector) <= #[trigger] vector[i],
    decreases vector.len(),
{
    if vector.len() > 1 {
        let front = vector.drop_last();
        lemma_least(front);
        let at = choose|i: int| 0 <= i < front.len() && front[i] == least(front);
        assert(vector[at] == front[at]);
        assert forall|i: int| 0 <= i < vector.len() implies least(vector)
            <= #[trigger] vector[i] by {
            if i < front.len() {
                assert(vector[i] == front[i]);
            }
        }
        assert(vector[vector.len() - 1] == vector.last());
    } else {
        assert(vector[0] == least(vector));
    }
}

/// The largest distance bounds every distance, and is one of them unless it is zero.
proof fn lemma_span(vector: Seq<i64>, reference: i64)
    requires
        forall|i: int| 0 <= i < vector.len() ==> reference <= #[trigger] vector[i],
    ensures
        forall|i: int|
            0 <= i < vector.len() ==> #[trigger] vector[i] - reference <= span(vector, reference),
        span(vector, reference) > 0 ==> exists|i: int|
            0 <= i < vector.len() && #[trigger] vector[i] - reference == span(vector, reference),
    decreases vector.len(),
{
    if vector.len() > 0 {
        let front = vector.drop_last();
        assert forall|i: int| 0 <= i < front.len() implies reference <= #[trigger] front[i] by {
            assert(front[i] == vector[i]);
        }
        lemma_span(front, reference);
        assert(vector[vector.len() - 1] == vector.last());
        assert forall|i: int| 0 <= i < vector.len() implies #[trigger] vector[i] - reference
            <= span(vector, reference) by {
            if i < front.len() {
                assert(vector[i] == front[i]);
            }
        }
        if span(vector, reference) > 0 {
            if (vector.last() - reference) as u64 > span(front, reference) {
                assert(vector[vector.len() - 1] - reference == span(vector, reference));
            } else {
                let i = choose|i: int|
                    0 <= i < front.len() && #[trigger] front[i] - reference == span(
                        front,
                        reference,
                    );
                assert(vector[i] - reference == span(vector, reference));
            }
        }
    }
}

/// The distance of a value from a smaller one, in wrapping arithmetic.
fn residual(delta: i64, reference: i64) -> (distance: u64)
    requires
        reference <= delta,
    ensures
        distance == delta - reference,
{
    let wrapped: i64 = delta.wrapping_sub(reference);
    proof {
        bitseq::lemma_twos(wrapped, 0);
    }
    wrapped as u64
}

/// The smallest value of a vector, and the width that every value of it will pay.
pub fn frame(vector: &[i64]) -> (frame: (i64, u32))
    requires
        vector@.len() > 0,
    ensures
        frame.0 == least(vector@),
        frame.1 == width_of(vector@),
        frame.1 <= 64,
{
    let mut reference: i64 = vector[0];
    let mut i: usize = 1;
    assert(vector@.take(1).len() == 1 && vector@.take(1)[0] == vector@[0]);
    while i < vector.len()
        invariant
            1 <= i <= vector.len(),
            reference == least(vector@.take(i as int)),
        decreases vector.len() - i,
    {
        assert(vector@.take(i + 1).drop_last() =~= vector@.take(i as int));
        if vector[i] < reference {
            reference = vector[i];
        }
        i = i + 1;
    }
    assert(vector@.take(i as int) =~= vector@);
    proof {
        lemma_least(vector@);
        assert(vector@.take(0) =~= Seq::<i64>::empty());
    }
    let mut widest: u64 = 0;
    let mut j: usize = 0;
    while j < vector.len()
        invariant
            j <= vector.len(),
            forall|k: int| 0 <= k < vector@.len() ==> reference <= #[trigger] vector@[k],
            widest == span(vector@.take(j as int), reference),
        decreases vector.len() - j,
    {
        assert(vector@.take(j + 1).drop_last() =~= vector@.take(j as int));
        let here: u64 = residual(vector[j], reference);
        if here > widest {
            widest = here;
        }
        j = j + 1;
    }
    assert(vector@.take(j as int) =~= vector@);
    proof {
        bitseq::lemma_leading_zeros(widest);
    }
    (reference, 64 - widest.leading_zeros())
}

/// The first differences of a run of integers.
fn differences(integers: &[i64]) -> (deltas: Vec<i64>)
    ensures
        deltas@ == deltas_of(integers@),
{
    let mut deltas: Vec<i64> = Vec::with_capacity(integers.len());
    let mut i: usize = 1;
    while i < integers.len()
        invariant
            1 <= i,
            i == 1 || i <= integers@.len(),
            deltas@.len() == i - 1,
            forall|j: int|
                0 <= j < i - 1 ==> #[trigger] deltas@[j] == integers@[j + 1].wrapping_sub(
                    integers@[j],
                ),
        decreases integers.len() - i,
    {
        deltas.push(integers[i].wrapping_sub(integers[i - 1]));
        i = i + 1;
    }
    assert(deltas@ =~= deltas_of(integers@));
    deltas
}

/// A vector costs at most a word to a value, and its frame.
proof fn lemma_vectors_bound(deltas: Seq<i64>)
    ensures
        vectors_cost(deltas) <= 135 * deltas.len(),
    decreases deltas.len(),
{
    if deltas.len() > 0 {
        let len = vector_len(deltas.len()) as int;
        lemma_frame(deltas.take(len));
        lemma_vectors_bound(deltas.skip(len));
        assert(width_of(deltas.take(len)) * len <= 64 * len) by (nonlinear_arith)
            requires
                width_of(deltas.take(len)) <= 64,
                len >= 0,
        ;
    }
}

/// What a run costs fits in a word.
proof fn lemma_cost_bound(points: Seq<Point>, e: nat)
    requires
        points.len() <= u64::MAX,
    ensures
        cost_of(points, e) <= 207 * points.len(),
{
    alp::lemma_exceptions(points, e);
    lemma_vectors_bound(deltas_of(alp::integers_of(points, e)));
}

/// What this run would cost at this exponent. It is no longer than a vector, so it is priced as
/// a block of its length would be written.
pub fn cost_bits(points: &[Point], exponent: u8) -> (cost: u64)
    requires
        exponent <= MAX_SCALE,
        points@.len() <= VECTOR,
    ensures
        cost == cost_of(points@, exponent as nat),
{
    let (integers, exceptions) = alp::split(points, exponent);
    let deltas: Vec<i64> = differences(integers.as_slice());
    proof {
        alp::lemma_exceptions(points@, exponent as nat);
        lemma_vectors_bound(deltas@);
        assert(deltas@.skip(0) =~= deltas@);
    }
    let mut bits: u64 = 0;
    let mut start: usize = 0;
    while start < deltas.len()
        invariant
            start <= deltas@.len(),
            bits + vectors_cost(deltas@.skip(start as int)) == vectors_cost(deltas@),
            vectors_cost(deltas@) <= 135 * VECTOR,
        decreases deltas.len() - start,
    {
        let left: usize = deltas.len() - start;
        let len: usize = if left < VECTOR { left } else { VECTOR };
        let vector: &[i64] = &deltas.as_slice()[start..start + len];
        let ghost tail = deltas@.skip(start as int);
        proof {
            assert(vector@ =~= tail.take(len as int));
            assert(tail.skip(len as int) =~= deltas@.skip(start + len));
        }
        let (_, width) = frame(vector);
        assert(width * len <= 64 * 1024) by (nonlinear_arith)
            requires
                width <= 64,
                len <= 1024,
        ;
        bits = bits + width as u64 * len as u64 + 64 + WIDTH_BITS as u64;
        start = start + len;
    }
    assert(deltas@.skip(start as int).len() == 0);
    bits + exceptions.len() as u64 * EXCEPTION_BITS
}

/// What several runs cost together at `exponent`.
fn runs_cost(runs: &Vec<&[Point]>, exponent: u8) -> (bits: u64)
    requires
        exponent <= MAX_SCALE,
        runs@.len() <= alp::SAMPLE_RUNS,
        forall|i: int| 0 <= i < runs@.len() ==> #[trigger] runs@[i]@.len() <= VECTOR,
    ensures
        bits == alp::total(
            alp::views(runs@),
            |run: Seq<Point>| cost_of(run, exponent as nat),
        ),
{
    let ghost models = alp::views(runs@);
    let ghost cost = |run: Seq<Point>| cost_of(run, exponent as nat);
    let mut bits: u64 = 0;
    let mut i: usize = 0;
    assert(models.take(0) =~= Seq::<Seq<Point>>::empty());
    while i < runs.len()
        invariant
            exponent <= MAX_SCALE,
            i <= runs@.len() <= alp::SAMPLE_RUNS,
            forall|j: int| 0 <= j < runs@.len() ==> #[trigger] runs@[j]@.len() <= VECTOR,
            models == alp::views(runs@),
            cost == (|run: Seq<Point>| cost_of(run, exponent as nat)),
            bits == alp::total(models.take(i as int), cost),
            bits <= 300_000 * i,
        decreases runs.len() - i,
    {
        let run: &[Point] = runs[i];
        proof {
            assert(run@ == runs@[i as int]@);
            lemma_cost_bound(run@, exponent as nat);
            assert(models.take(i + 1).drop_last() =~= models.take(i as int));
            assert(models.take(i + 1).last() == run@);
        }
        bits = bits + cost_bits(run, exponent);
        i = i + 1;
    }
    assert(models.take(i as int) =~= models);
    bits
}

/// The exponent whose sample runs cost least, and the smallest such.
pub fn choose_exponent(points: &[Point]) -> (exponent: u8)
    ensures
        exponent == exponent_of(points@),
        exponent <= MAX_SCALE,
{
    let runs: Vec<&[Point]> = alp::sample_runs(points);
    let ghost price = |e: nat| sample_cost(points@, e);
    let mut best: u8 = 0;
    let mut best_bits: u64 = u64::MAX;
    let mut exponent: u8 = 0;
    proof {
        alp::lemma_runs(points@);
        assert forall|i: int| 0 <= i < runs@.len() implies #[trigger] runs@[i]@.len() <= VECTOR by {
            assert(runs@[i]@ == alp::views(runs@)[i]);
        }
    }
    while exponent <= MAX_SCALE
        invariant
            exponent <= MAX_SCALE + 1,
            best <= MAX_SCALE,
            price == (|e: nat| sample_cost(points@, e)),
            alp::views(runs@) == alp::runs_of(points@),
            runs@.len() <= alp::SAMPLE_RUNS,
            forall|i: int| 0 <= i < runs@.len() ==> #[trigger] runs@[i]@.len() <= VECTOR,
            exponent == 0 ==> best_bits == u64::MAX && best == 0,
            exponent > 0 ==> best == alp::cheapest(price, (exponent - 1) as nat),
            exponent > 0 ==> best_bits == price(best as nat),
        decreases MAX_SCALE + 1 - exponent,
    {
        let bits: u64 = runs_cost(&runs, exponent);
        assert(bits == price(exponent as nat));
        if bits < best_bits {
            best_bits = bits;
            best = exponent;
        }
        exponent = exponent + 1;
    }
    best
}

/// Differences lead back to the integers that they were taken of.
proof fn lemma_running(integers: Seq<i64>)
    requires
        integers.len() > 0,
    ensures
        running(integers[0], deltas_of(integers)) == integers.skip(1),
    decreases integers.len(),
{
    let deltas = deltas_of(integers);
    if integers.len() > 1 {
        let tail = integers.skip(1);
        lemma_running(tail);
        assert(deltas.skip(1) =~= deltas_of(tail));
        let (a, b) = (integers[0], integers[1]);
        assert(a.wrapping_add(b.wrapping_sub(a)) == b);
        assert(seq![b] + tail.skip(1) =~= tail);
    } else {
        assert(integers.skip(1) =~= Seq::<i64>::empty());
    }
}

/// Differences in two parts lead to the same integers.
proof fn lemma_running_split(previous: i64, deltas: Seq<i64>, n: int)
    requires
        0 < n <= deltas.len(),
    ensures
        running(previous, deltas.take(n)).len() == n,
        running(previous, deltas) == running(previous, deltas.take(n)) + running(
            running(previous, deltas.take(n)).last(),
            deltas.skip(n),
        ),
    decreases n,
{
    let head = deltas.take(n);
    let next = previous.wrapping_add(deltas[0]);
    let whole = running(next, deltas.skip(1));
    if n == 1 {
        assert(head.skip(1) =~= Seq::<i64>::empty());
        assert(running(next, head.skip(1)) =~= Seq::<i64>::empty());
        assert(running(previous, head) =~= seq![next]);
        assert(running(previous, deltas) =~= seq![next] + whole);
    } else {
        lemma_running_split(next, deltas.skip(1), n - 1);
        assert(deltas.skip(1).take(n - 1) =~= head.skip(1));
        assert(deltas.skip(1).skip(n - 1) =~= deltas.skip(n));
        let part = running(next, head.skip(1));
        assert(running(previous, head) == seq![next] + part);
        assert(running(previous, head).last() == part.last());
        assert(seq![next] + (part + running(part.last(), deltas.skip(n))) =~= (seq![next] + part)
            + running(part.last(), deltas.skip(n)));
    }
}

/// The values of a vector are read back from what was written for them.
proof fn lemma_take_residuals(
    deltas: Seq<i64>,
    reference: i64,
    width: nat,
    previous: i64,
    rest: Seq<bool>,
)
    requires
        width <= 64,
        forall|i: int|
            0 <= i < deltas.len() ==> reference <= #[trigger] deltas[i] && deltas[i] - reference
                < pow2(width),
    ensures
        take_residuals(
            residual_bits(deltas, reference, width) + rest,
            deltas.len(),
            reference,
            width,
            previous,
        ) == Some((running(previous, deltas), rest)),
    decreases deltas.len(),
{
    let s = residual_bits(deltas, reference, width) + rest;
    if deltas.len() == 0 {
        assert(s =~= rest);
    } else {
        let distance = (deltas[0] - reference) as u64;
        let tail = deltas.skip(1);
        let others = residual_bits(tail, reference, width);
        bitseq::lemma_join(bitseq::bits_of(distance as nat, width), others, rest);
        bitseq::lemma_take_bits(distance, width, others + rest);
        assert(reference.wrapping_add(bitseq::untwos(distance)) == deltas[0]);
        assert forall|i: int| 0 <= i < tail.len() implies reference <= #[trigger] tail[i]
            && tail[i] - reference < pow2(width) by {
            assert(tail[i] == deltas[i + 1]);
        }
        lemma_take_residuals(tail, reference, width, previous.wrapping_add(deltas[0]), rest);
    }
}

/// Differences are read back, as the integers they lead to, from what was written for them.
pub proof fn lemma_take_vectors(deltas: Seq<i64>, previous: i64, rest: Seq<bool>)
    ensures
        take_vectors(packed_bits(deltas) + rest, deltas.len(), previous) == Some(
            (running(previous, deltas), rest),
        ),
    decreases deltas.len(),
{
    let s = packed_bits(deltas) + rest;
    if deltas.len() == 0 {
        assert(s =~= rest);
    } else {
        let len = vector_len(deltas.len()) as int;
        let vector = deltas.take(len);
        let reference = least(vector);
        let width = width_of(vector);
        let values = running(previous, vector);
        lemma_frame(vector);
        lemma2_to64();
        let tail = packed_bits(deltas.skip(len)) + rest;
        let third = residual_bits(vector, reference, width) + tail;
        let second = bitseq::bits_of(width, 7) + third;
        assert(s =~= bitseq::varint(bitseq::zigzag_of(reference) as nat) + second);
        bitseq::lemma_take_signed(reference, second);
        bitseq::lemma_take_bits(width as u64, 7, third);
        lemma_take_residuals(vector, reference, width, previous, tail);
        lemma_running_split(previous, deltas, len);
        lemma_take_vectors(deltas.skip(len), values.last(), rest);
    }
}

/// How timestamps and integers are written: the first of each whole, then the other timestamps,
/// then the differences of the integers.
pub open spec fn body_bits(times: Seq<i64>, integers: Seq<i64>) -> Seq<bool> {
    bitseq::varint(bitseq::zigzag_of(times[0]) as nat) + (bitseq::varint(
        bitseq::zigzag_of(integers[0]) as nat,
    ) + (dod::stream_bits(Dod::start(times[0]), times.skip(1)) + packed_bits(deltas_of(integers))))
}

/// Takes `count` timestamps and integers off the front of a stream.
pub open spec fn take_body(s: Seq<bool>, count: nat) -> Option<(Seq<(i64, i64)>, Seq<bool>)> {
    match bitseq::take_signed(s) {
        None => None,
        Some((timestamp, rest)) => match bitseq::take_signed(rest) {
            None => None,
            Some((integer, rest)) => match dod::take_stream(
                Dod::start(timestamp),
                (count - 1) as nat,
                rest,
            ) {
                None => None,
                Some((times, rest)) => match take_vectors(rest, (count - 1) as nat, integer) {
                    None => None,
                    Some((integers, rest)) => Some(
                        ((seq![timestamp] + times).zip_with(seq![integer] + integers), rest),
                    ),
                },
            },
        },
    }
}

/// Timestamps and integers are read back from what was written for them.
proof fn lemma_take_body(times: Seq<i64>, integers: Seq<i64>, rest: Seq<bool>)
    requires
        times.len() == integers.len(),
        times.len() > 0,
    ensures
        take_body(body_bits(times, integers) + rest, times.len()) == Some(
            (times.zip_with(integers), rest),
        ),
{
    let state = Dod::start(times[0]);
    let deltas = deltas_of(integers);
    let fourth = packed_bits(deltas) + rest;
    let third = dod::stream_bits(state, times.skip(1)) + fourth;
    let second = bitseq::varint(bitseq::zigzag_of(integers[0]) as nat) + third;
    let first = bitseq::varint(bitseq::zigzag_of(times[0]) as nat) + second;
    assert(body_bits(times, integers) + rest =~= first);
    bitseq::lemma_take_signed(times[0], second);
    bitseq::lemma_take_signed(integers[0], third);
    dod::lemma_take_stream(state, times.skip(1), fourth);
    lemma_take_vectors(deltas, integers[0], rest);
    lemma_running(integers);
    assert(seq![times[0]] + times.skip(1) =~= times);
    assert(seq![integers[0]] + integers.skip(1) =~= integers);
}

/// The stream of a block at exponent `e`.
pub open spec fn stream(points: Seq<Point>, e: nat) -> Seq<bool> {
    let header = bitseq::varint(points.len()) + bitseq::bits_of(e, 8);
    if points.len() == 0 {
        header
    } else {
        header + (alp::list_bits(alp::exceptions_of(points, e)) + body_bits(
            codec::timestamps(points),
            alp::integers_of(points, e),
        ))
    }
}

/// Takes the points of a block off the front of a stream.
pub open spec fn taken(s: Seq<bool>) -> Option<(Seq<Point>, Seq<bool>)> {
    match bitseq::take_varint(s) {
        None => None,
        Some((count, rest)) => match bitseq::take_bits(rest, 8) {
            None => None,
            Some((e, rest)) => if e > MAX_SCALE {
                None
            } else if count == 0 {
                Some((Seq::empty(), rest))
            } else {
                match alp::take_list(rest, count) {
                    None => None,
                    Some((patches, rest)) => match take_body(rest, count as nat) {
                        None => None,
                        Some((pairs, rest)) => Some(
                            (alp::patched(decimal::readings(pairs, e as nat), patches), rest),
                        ),
                    },
                }
            },
        },
    }
}

/// The points that a stream stands for.
pub open spec fn parsed(s: Seq<bool>) -> Option<Seq<Point>> {
    match taken(s) {
        None => None,
        Some((points, rest)) => Some(points),
    }
}

/// The points of a block are read back from its stream, whatever follows it.
pub proof fn lemma_roundtrip(points: Seq<Point>, e: nat, rest: Seq<bool>)
    requires
        points.len() <= u32::MAX,
        e <= MAX_SCALE,
    ensures
        taken(stream(points, e) + rest) == Some((points, rest)),
{
    let count = points.len() as u64;
    let times = codec::timestamps(points);
    let integers = alp::integers_of(points, e);
    let patches = alp::exceptions_of(points, e);
    let third = body_bits(times, integers) + rest;
    let body = if points.len() == 0 {
        rest
    } else {
        alp::list_bits(patches) + third
    };
    let second = bitseq::bits_of(e, 8) + body;
    assert(stream(points, e) + rest =~= bitseq::varint(count as nat) + second);
    bitseq::lemma_take_varint(count, second);
    lemma2_to64();
    bitseq::lemma_take_bits(e as u64, 8, body);
    if points.len() == 0 {
        assert(points =~= Seq::<Point>::empty());
    } else {
        alp::lemma_patches_restore(points, e);
        alp::lemma_take_list(patches, count, third);
        lemma_take_body(times, integers, rest);
    }
}

/// Appends the differences of the integers, vector by vector.
fn write_vectors(w: &mut BitWriter, deltas: &[i64])
    requires
        old(w).wf(),
    ensures
        final(w).wf(),
        final(w)@ == old(w)@ + packed_bits(deltas@),
{
    let ghost goal = w@ + packed_bits(deltas@);
    let mut start: usize = 0;
    assert(deltas@.skip(0) =~= deltas@);
    while start < deltas.len()
        invariant
            w.wf(),
            start <= deltas@.len(),
            w@ + packed_bits(deltas@.skip(start as int)) == goal,
        decreases deltas.len() - start,
    {
        let left: usize = deltas.len() - start;
        let len: usize = if left < VECTOR { left } else { VECTOR };
        let vector: &[i64] = &deltas[start..start + len];
        let ghost before = w@;
        let ghost tail = deltas@.skip(start as int);
        proof {
            assert(vector@ =~= tail.take(len as int));
            assert(tail.skip(len as int) =~= deltas@.skip(start + len));
        }
        write_vector(w, vector);
        assert(w@ + packed_bits(tail.skip(len as int)) =~= before + packed_bits(tail));
        start = start + len;
    }
    assert(deltas@.skip(start as int).len() == 0);
    assert(w@ =~= goal);
}

/// Appends one vector.
fn write_vector(w: &mut BitWriter, vector: &[i64])
    requires
        old(w).wf(),
        vector@.len() > 0,
    ensures
        final(w).wf(),
        final(w)@ == old(w)@ + vector_bits(vector@),
{
    let ghost goal = w@ + vector_bits(vector@);
    let (reference, width) = frame(vector);
    w.write_varint(crate::bits::zigzag(reference));
    w.write_bits(width as u64, WIDTH_BITS);
    let mut i: usize = 0;
    proof {
        lemma_least(vector@);
        assert(vector@.skip(0) =~= vector@);
        assert(w@ + residual_bits(vector@.skip(0), reference, width as nat) =~= goal);
    }
    while i < vector.len()
        invariant
            w.wf(),
            i <= vector@.len(),
            width <= 64,
            forall|k: int| 0 <= k < vector@.len() ==> reference <= #[trigger] vector@[k],
            w@ + residual_bits(vector@.skip(i as int), reference, width as nat) == goal,
        decreases vector.len() - i,
    {
        let ghost before = w@;
        let ghost tail = vector@.skip(i as int);
        w.write_bits(residual(vector[i], reference), width);
        i = i + 1;
        proof {
            assert(tail.skip(1) =~= vector@.skip(i as int));
            assert(w@ + residual_bits(tail.skip(1), reference, width as nat) =~= before
                + residual_bits(tail, reference, width as nat));
        }
    }
    assert(vector@.skip(i as int).len() == 0);
    assert(w@ =~= goal);
}

/// Reads the `len` integers of a vector, and appends them to those before them.
fn read_residuals(
    r: &mut BitReader,
    len: u64,
    reference: i64,
    width: u32,
    integers: &mut Vec<i64>,
) -> (result: Result<(), Error>)
    requires
        old(r).wf(),
        width <= 64,
        old(integers)@.len() > 0,
    ensures
        final(r).wf(),
        match take_residuals(
            old(r)@,
            len as nat,
            reference,
            width as nat,
            old(integers)@.last(),
        ) {
            None => result == Err::<(), Error>(Error::MalformedBlock),
            Some((values, rest)) => {
                &&& result is Ok
                &&& final(integers)@ == old(integers)@ + values
                &&& values.len() == len
                &&& final(r)@ == rest
            },
        },
{
    let ghost start = integers@;
    let ghost goal = take_residuals(r@, len as nat, reference, width as nat, integers@.last());
    let mut previous: i64 = integers[integers.len() - 1];
    let mut done: u64 = 0;
    let ghost mut values: Seq<i64> = Seq::empty();
    proof {
        assert(integers@ =~= start + values);
        if let Some((more, rest)) = goal {
            assert(values + more =~= more);
        }
    }
    while done < len
        invariant
            r.wf(),
            width <= 64,
            done <= len,
            start == old(integers)@,
            goal == take_residuals(
                old(r)@,
                len as nat,
                reference,
                width as nat,
                old(integers)@.last(),
            ),
            integers@ == start + values,
            values.len() == done,
            goal == (match take_residuals(
                r@,
                (len - done) as nat,
                reference,
                width as nat,
                previous,
            ) {
                None => None,
                Some((more, rest)) => Some((values + more, rest)),
            }),
        decreases len - done,
    {
        let ghost before = values;
        let bits: u64 = r.read_bits(width)?;
        proof {
            bitseq::lemma_twos(0, bits);
        }
        let delta: i64 = reference.wrapping_add(bits as i64);
        previous = previous.wrapping_add(delta);
        integers.push(previous);
        done = done + 1;
        proof {
            values = before.push(previous);
            assert(integers@ =~= start + values);
            if let Some((more, rest)) = take_residuals(
                r@,
                (len - done) as nat,
                reference,
                width as nat,
                previous,
            ) {
                assert(before + (seq![previous] + more) =~= values + more);
            }
        }
    }
    assert(values + Seq::<i64>::empty() =~= values);
    Ok(())
}

/// Reads `count` timestamps, the first of them `first`.
fn read_times(r: &mut BitReader, first: i64, count: u64) -> (result: Result<Vec<i64>, Error>)
    requires
        old(r).wf(),
        count > 0,
    ensures
        final(r).wf(),
        match dod::take_stream(Dod::start(first), (count - 1) as nat, old(r)@) {
            None => result == Err::<Vec<i64>, Error>(Error::MalformedBlock),
            Some((times, rest)) => {
                &&& result matches Ok(read)
                &&& read@ == seq![first] + times
                &&& read@.len() == count
                &&& final(r)@ == rest
            },
        },
{
    let ghost goal = dod::take_stream(Dod::start(first), (count - 1) as nat, r@);
    let mut times: Vec<i64> = Vec::new();
    times.push(first);
    let mut state = Dod::new(first);
    let mut done: u64 = 1;
    let ghost mut values: Seq<i64> = Seq::empty();
    proof {
        assert(times@ =~= seq![first] + values);
        if let Some((more, rest)) = goal {
            assert(values + more =~= more);
        }
    }
    while done < count
        invariant
            r.wf(),
            1 <= done <= count,
            goal == dod::take_stream(Dod::start(first), (count - 1) as nat, old(r)@),
            times@ == seq![first] + values,
            values.len() == done - 1,
            goal == (match dod::take_stream(state, (count - done) as nat, r@) {
                None => None,
                Some((more, rest)) => Some((values + more, rest)),
            }),
        decreases count - done,
    {
        let ghost before = values;
        let timestamp: i64 = state.read(r)?;
        times.push(timestamp);
        done = done + 1;
        proof {
            values = before.push(timestamp);
            assert(times@ =~= seq![first] + values);
            if let Some((more, rest)) = dod::take_stream(state, (count - done) as nat, r@) {
                assert(before + (seq![timestamp] + more) =~= values + more);
            }
        }
    }
    assert(values + Seq::<i64>::empty() =~= values);
    Ok(times)
}

/// Reads `count` integers, the first of them `first`, vector by vector.
fn read_integers(r: &mut BitReader, first: i64, count: u64) -> (result: Result<Vec<i64>, Error>)
    requires
        old(r).wf(),
        count > 0,
    ensures
        final(r).wf(),
        match take_vectors(old(r)@, (count - 1) as nat, first) {
            None => result == Err::<Vec<i64>, Error>(Error::MalformedBlock),
            Some((integers, rest)) => {
                &&& result matches Ok(read)
                &&& read@ == seq![first] + integers
                &&& read@.len() == count
                &&& final(r)@ == rest
            },
        },
{
    let ghost goal = take_vectors(r@, (count - 1) as nat, first);
    let mut integers: Vec<i64> = Vec::new();
    integers.push(first);
    let mut remaining: u64 = count - 1;
    let ghost mut values: Seq<i64> = Seq::empty();
    proof {
        assert(integers@ =~= seq![first] + values);
        if let Some((more, rest)) = goal {
            assert(values + more =~= more);
        }
    }
    while remaining > 0
        invariant
            r.wf(),
            remaining < count,
            goal == take_vectors(old(r)@, (count - 1) as nat, first),
            integers@ == seq![first] + values,
            values.len() == count - 1 - remaining,
            goal == (match take_vectors(r@, remaining as nat, integers@.last()) {
                None => None,
                Some((more, rest)) => Some((values + more, rest)),
            }),
        decreases remaining,
    {
        let ghost before = values;
        let ghost held = integers@;
        let len: u64 = if remaining < VECTOR as u64 { remaining } else { VECTOR as u64 };
        let reference: i64 = r.read_signed()?;
        let width: u64 = r.read_bits(WIDTH_BITS)?;
        if width > 64 {
            return Err(Error::MalformedBlock);
        }
        let ghost here = r@;
        read_residuals(r, len, reference, width as u32, &mut integers)?;
        remaining = remaining - len;
        proof {
            let part = integers@.skip(held.len() as int);
            assert(take_residuals(here, len as nat, reference, width as nat, held.last()) == Some(
                (part, r@),
            )) by {
                if let Some((read, rest)) = take_residuals(
                    here,
                    len as nat,
                    reference,
                    width as nat,
                    held.last(),
                ) {
                    assert(part =~= read);
                }
            }
            values = before + part;
            assert(integers@ =~= seq![first] + values);
            assert(integers@.last() == part.last());
            if let Some((more, rest)) = take_vectors(r@, remaining as nat, integers@.last()) {
                assert(before + (part + more) =~= values + more);
            }
        }
    }
    assert(values + Seq::<i64>::empty() =~= values);
    Ok(integers)
}

impl Codec for Packed {
    open spec fn tag_of(&self, points: Seq<Point>) -> u8 {
        if alp::falls_back(points, exponent_of(points)) {
            TAG_GORILLA
        } else {
            TAG_PACKED
        }
    }

    open spec fn stream_of(&self, points: Seq<Point>) -> Seq<bool> {
        if alp::falls_back(points, exponent_of(points)) {
            gorilla::stream(points)
        } else {
            stream(points, exponent_of(points))
        }
    }

    open spec fn called(&self) -> Seq<char> {
        "packed"@
    }

    fn name(&self) -> &'static str {
        "packed"
    }

    fn encode(&self, points: &[Point]) -> Result<Vec<u8>, Error> {
        codec::check_count(points.len())?;
        let exponent: u8 = choose_exponent(points);
        let (integers, exceptions) = alp::split(points, exponent);
        assert(exceptions@.len() <= points@.len()) by {
            alp::lemma_exceptions(points@, exponent as nat);
        }
        if exceptions.len() as u64 * MAX_EXCEPTIONS_PER > points.len() as u64 {
            return Gorilla.encode(points);
        }
        let block: Vec<u8> = written(
            points,
            exponent,
            integers.as_slice(),
            exceptions.as_slice(),
        );
        proof {
            codec::lemma_packed_lossless(points@, block@);
        }
        Ok(block)
    }
}

/// Appends the timestamps of `points`, and the integers that stand for their values.
fn write_body(w: &mut BitWriter, points: &[Point], integers: &[i64])
    requires
        old(w).wf(),
        points@.len() == integers@.len(),
        points@.len() > 0,
    ensures
        final(w).wf(),
        final(w)@ == old(w)@ + body_bits(codec::timestamps(points@), integers@),
{
    w.write_varint(crate::bits::zigzag(points[0].timestamp));
    w.write_varint(crate::bits::zigzag(integers[0]));
    write_times(w, points);
    write_vectors(w, differences(integers).as_slice());
    assert(w@ =~= old(w)@ + body_bits(codec::timestamps(points@), integers@));
}

/// Appends the timestamps after the first.
fn write_times(w: &mut BitWriter, points: &[Point])
    requires
        old(w).wf(),
        points@.len() > 0,
    ensures
        final(w).wf(),
        final(w)@ == old(w)@ + dod::stream_bits(
            Dod::start(points@[0].timestamp),
            codec::timestamps(points@).skip(1),
        ),
{
    let ghost times = codec::timestamps(points@);
    let mut state = Dod::new(points[0].timestamp);
    let mut i: usize = 1;
    let ghost goal = w@ + dod::stream_bits(state, times.skip(1));
    while i < points.len()
        invariant
            w.wf(),
            1 <= i <= points@.len(),
            times == codec::timestamps(points@),
            w@ + dod::stream_bits(state, times.skip(i as int)) == goal,
        decreases points.len() - i,
    {
        let ghost before = w@;
        let ghost tail = times.skip(i as int);
        let ghost held = state;
        state.write(w, points[i].timestamp);
        i = i + 1;
        proof {
            assert(tail.skip(1) =~= times.skip(i as int));
            assert(w@ + dod::stream_bits(state, tail.skip(1)) =~= before + dod::stream_bits(
                held,
                tail,
            ));
        }
    }
    assert(times.skip(i as int).len() == 0);
    assert(w@ =~= goal);
}

/// The block that holds `points` at `exponent`, with their integers and their patches.
fn written(
    points: &[Point],
    exponent: u8,
    integers: &[i64],
    exceptions: &[(u64, u64)],
) -> (block: Vec<u8>)
    requires
        points@.len() <= u32::MAX,
        exponent <= MAX_SCALE,
        integers@ == alp::integers_of(points@, exponent as nat),
        exceptions@ == alp::exceptions_of(points@, exponent as nat),
    ensures
        codec::is_block(block@, TAG_PACKED, stream(points@, exponent as nat)),
{
    let mut w = BitWriter::with_capacity(points.len());
    w.write_varint(points.len() as u64);
    w.write_bits(exponent as u64, 8);
    if points.len() > 0 {
        proof {
            alp::lemma_exceptions(points@, exponent as nat);
            alp::lemma_in_order(exceptions@, 0, u64::MAX as nat);
        }
        alp::write_list(&mut w, exceptions);
        write_body(&mut w, points, integers);
    }
    assert(w@ =~= stream(points@, exponent as nat));
    codec::seal(TAG_PACKED, w)
}

/// The points that the body of a packed block stands for.
pub fn decode(body: &[u8]) -> (result: Result<Vec<Point>, Error>)
    ensures
        codec::decodes(parsed(bitseq::unpack(body@)), result),
{
    let mut r = BitReader::new(body);
    let count: u64 = r.read_varint()?;
    let exponent: u64 = r.read_bits(8)?;
    if exponent > MAX_SCALE as u64 {
        return Err(Error::MalformedBlock);
    }
    let mut points: Vec<Point> = Vec::new();
    if count == 0 {
        assert(points@ =~= Seq::<Point>::empty());
        return Ok(points);
    }
    let exceptions: Vec<(u64, u64)> = alp::read_list(&mut r, count)?;
    let timestamp: i64 = r.read_signed()?;
    let integer: i64 = r.read_signed()?;
    let times: Vec<i64> = read_times(&mut r, timestamp, count)?;
    let integers: Vec<i64> = read_integers(&mut r, integer, count)?;
    let ghost pairs = times@.zip_with(integers@);
    let mut i: usize = 0;
    while i < times.len()
        invariant
            i <= times@.len(),
            times@.len() == integers@.len(),
            exponent <= MAX_SCALE,
            pairs == times@.zip_with(integers@),
            points@ == decimal::readings(pairs, exponent as nat).take(i as int),
        decreases times.len() - i,
    {
        points.push(Point::new(times[i], decimal::unscaled(integers[i], exponent as u8)));
        i = i + 1;
        assert(points@ =~= decimal::readings(pairs, exponent as nat).take(i as int));
    }
    assert(points@ =~= decimal::readings(pairs, exponent as nat));
    alp::apply(&mut points, exceptions.as_slice());
    Ok(points)
}

/// Values taken off the front of a stream are taken off the front of any longer one alike, and
/// are as many as were asked for.
proof fn lemma_extend_residuals(
    s: Seq<bool>,
    n: nat,
    reference: i64,
    width: nat,
    previous: i64,
    more: Seq<bool>,
)
    ensures
        take_residuals(s, n, reference, width, previous) matches Some((values, rest)) ==> {
            &&& take_residuals(s + more, n, reference, width, previous) == Some(
                (values, rest + more),
            )
            &&& values.len() == n
        },
    decreases n,
{
    if n > 0 {
        bitseq::lemma_extend_bits(s, width, more);
        if let Some((residual, rest)) = bitseq::take_bits(s, width) {
            let delta = reference.wrapping_add(bitseq::untwos(residual));
            let next = previous.wrapping_add(delta);
            lemma_extend_residuals(rest, (n - 1) as nat, reference, width, next, more);
        }
    }
}

/// Integers taken off the front of a stream are taken off the front of any longer one alike, and
/// are as many as were asked for.
proof fn lemma_extend_vectors(s: Seq<bool>, remaining: nat, previous: i64, more: Seq<bool>)
    ensures
        take_vectors(s, remaining, previous) matches Some((integers, rest)) ==> {
            &&& take_vectors(s + more, remaining, previous) == Some((integers, rest + more))
            &&& integers.len() == remaining
        },
    decreases remaining,
{
    if remaining > 0 {
        let len = vector_len(remaining);
        bitseq::lemma_extend_varint(s, more);
        if let Some((reference, rest)) = bitseq::take_signed(s) {
            bitseq::lemma_extend_bits(rest, WIDTH_BITS as nat, more);
            if let Some((width, rest)) = bitseq::take_bits(rest, WIDTH_BITS as nat) {
                lemma_extend_residuals(rest, len, reference, width as nat, previous, more);
                if let Some((values, rest)) = take_residuals(
                    rest,
                    len,
                    reference,
                    width as nat,
                    previous,
                ) {
                    lemma_extend_vectors(rest, (remaining - len) as nat, values.last(), more);
                }
            }
        }
    }
}

/// Timestamps and integers taken off the front of a stream are taken off the front of any longer
/// one alike, and are as many as were asked for.
proof fn lemma_extend_body(s: Seq<bool>, count: nat, more: Seq<bool>)
    requires
        count > 0,
    ensures
        take_body(s, count) matches Some((pairs, rest)) ==> {
            &&& take_body(s + more, count) == Some((pairs, rest + more))
            &&& pairs.len() == count
        },
{
    bitseq::lemma_extend_varint(s, more);
    if let Some((timestamp, rest)) = bitseq::take_signed(s) {
        bitseq::lemma_extend_varint(rest, more);
        if let Some((integer, rest)) = bitseq::take_signed(rest) {
            let state = Dod::start(timestamp);
            dod::lemma_extend_stream(state, (count - 1) as nat, rest, more);
            if let Some((times, rest)) = dod::take_stream(state, (count - 1) as nat, rest) {
                lemma_extend_vectors(rest, (count - 1) as nat, integer, more);
            }
        }
    }
}

/// The point count says where a stream ends: what follows it changes nothing, and it stands for
/// as many points as it says.
pub proof fn lemma_count(s: Seq<bool>, more: Seq<bool>)
    ensures
        taken(s) matches Some((points, rest)) ==> {
            &&& taken(s + more) == Some((points, rest + more))
            &&& bitseq::take_varint(s) matches Some((count, _)) && count == points.len()
        },
{
    bitseq::lemma_extend_varint(s, more);
    if let Some((count, rest)) = bitseq::take_varint(s) {
        bitseq::lemma_extend_bits(rest, 8, more);
        if let Some((e, rest)) = bitseq::take_bits(rest, 8) {
            alp::lemma_extend_list(rest, count, more);
            if let Some((patches, rest)) = alp::take_list(rest, count) {
                if count > 0 {
                    lemma_extend_body(rest, count as nat, more);
                    if let Some((pairs, rest)) = take_body(rest, count as nat) {
                        alp::lemma_patched_len(decimal::readings(pairs, e as nat), patches, 0);
                    }
                }
            }
        }
    }
}

/// A block of at most one point has no differences to pack: at the same exponent its stream is
/// that of ALP.
pub proof fn lemma_at_most_one(points: Seq<Point>, e: nat)
    requires
        points.len() <= 1,
    ensures
        stream(points, e) == alp::stream(points, e),
{
    if points.len() == 1 {
        let times = codec::timestamps(points);
        let integers = alp::integers_of(points, e);
        assert(times.skip(1).len() == 0);
        assert(integers.skip(1).len() == 0);
        assert(deltas_of(integers).len() == 0);
        let nothing = Seq::<bool>::empty();
        assert(nothing + nothing =~= nothing);
        assert(body_bits(times, integers) == decimal::scaled_bits(times, integers));
    }
}

/// The cost of one point: nothing where it scales, and a patch where not.
proof fn lemma_cost_of_one(points: Seq<Point>, e: nat)
    requires
        points.len() == 1,
    ensures
        sample_cost(points, e) == (if decimal::scales(points, e) {
            0nat
        } else {
            EXCEPTION_BITS as nat
        }),
{
    alp::lemma_short_block(points, |run: Seq<Point>| cost_of(run, e));
    reveal_with_fuel(alp::exceptions_of, 2);
    assert(deltas_of(alp::integers_of(points, e)).len() == 0);
    if decimal::scales(points, e) {
        assert(decimal::scaled_of(points[0].value, e) is Some);
    }
}

/// A block of at most one point has the smallest exponent at which it scales, and zero where it
/// does not scale at all.
pub proof fn lemma_exponent_of_one(points: Seq<Point>)
    requires
        points.len() <= 1,
    ensures
        exponent_of(points) == (match decimal::scale_from(points, 0) {
            Some(e) => e,
            None => 0,
        }),
{
    let chosen = exponent_of(points);
    lemma_exponent(points);
    decimal::lemma_scale(points, 0);
    if points.len() == 0 {
        alp::lemma_short_block(points, |run: Seq<Point>| cost_of(run, 0));
        alp::lemma_short_block(points, |run: Seq<Point>| cost_of(run, chosen));
        assert(sample_cost(points, 0) == 0);
        assert(decimal::scales(points, 0));
    } else {
        lemma_cost_of_one(points, chosen);
        lemma_cost_of_one(points, 0);
        match decimal::scale_from(points, 0) {
            None => {
                assert(!decimal::scales(points, 0) && !decimal::scales(points, chosen));
                assert(sample_cost(points, 0) == sample_cost(points, chosen));
            },
            Some(e) => {
                lemma_cost_of_one(points, e);
                assert(sample_cost(points, chosen) <= sample_cost(points, e));
            },
        }
    }
}

/// Every value of a vector takes the width of the vector.
proof fn lemma_residual_len(deltas: Seq<i64>, reference: i64, width: nat)
    ensures
        residual_bits(deltas, reference, width).len() == width * deltas.len(),
    decreases deltas.len(),
{
    if deltas.len() > 0 {
        bitseq::lemma_bits_of_len((deltas[0] - reference) as nat, width);
        lemma_residual_len(deltas.skip(1), reference, width);
        assert(width * deltas.len() == width * (deltas.len() - 1) + width) by (nonlinear_arith);
    } else {
        assert(width * 0 == 0) by (nonlinear_arith);
    }
}

/// How long a vector is written: its smallest value, its width, and as many bits to each value
/// as the widest of them needs.
pub proof fn lemma_vector_len(vector: Seq<i64>)
    requires
        vector.len() > 0,
    ensures
        vector_bits(vector).len() == bitseq::varint(
            bitseq::zigzag_of(least(vector)) as nat,
        ).len() + WIDTH_BITS + width_of(vector) * vector.len(),
{
    bitseq::lemma_bits_of_len(width_of(vector), WIDTH_BITS as nat);
    lemma_residual_len(vector, least(vector), width_of(vector));
}

/// A vector has no width exactly when its values are all the same, and then stores no value
/// bits at all.
pub proof fn lemma_constant(vector: Seq<i64>)
    requires
        vector.len() > 0,
    ensures
        width_of(vector) == 0 <==> (forall|i: int|
            0 <= i < vector.len() ==> #[trigger] vector[i] == vector[0]),
        width_of(vector) == 0 ==> residual_bits(vector, least(vector), width_of(vector)).len() == 0,
{
    lemma_frame(vector);
    lemma_residual_len(vector, least(vector), width_of(vector));
    lemma2_to64();
    if width_of(vector) > 0 {
        lemma_pow2_pos((width_of(vector) - 1) as nat);
        let i = choose|i: int|
            0 <= i < vector.len() && #[trigger] vector[i] - least(vector) >= pow2(
                (width_of(vector) - 1) as nat,
            );
        let at = choose|j: int| 0 <= j < vector.len() && vector[j] == least(vector);
        assert(vector[i] != vector[at]);
    } else {
        assert(0nat * vector.len() == 0);
    }
}

} // verus!
