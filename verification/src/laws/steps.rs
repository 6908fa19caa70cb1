//! Delta-of-delta: what is stored for a value is how its step differs from the step before.

use crate::bitseq;
use crate::codec::dod;
use crate::codec::dod::Dod;
use crate::laws::bits;
use vstd::arithmetic::power2::*;
use vstd::prelude::*;

verus! {

/// The step that a run of values ends with. A run of one has taken none, which counts as zero.
pub open spec fn step(values: Seq<i64>) -> i64 {
    if values.len() < 2 {
        0
    } else {
        values[values.len() - 1].wrapping_sub(values[values.len() - 2])
    }
}

/// How the last step of a run differs from the one before it.
pub open spec fn change(values: Seq<i64>) -> i64 {
    step(values).wrapping_sub(step(values.drop_last()))
}

/// The prefix and the width of each bucket.
pub open spec fn row(bucket: int) -> (Seq<bool>, nat) {
    if bucket == 0 {
        (seq![true, false], 7)
    } else if bucket == 1 {
        (seq![true, true, false], 9)
    } else if bucket == 2 {
        (seq![true, true, true, false], 12)
    } else if bucket == 3 {
        (seq![true, true, true, true, false], 16)
    } else if bucket == 4 {
        (seq![true, true, true, true, true, false], 20)
    } else if bucket == 5 {
        (seq![true, true, true, true, true, true, false], 24)
    } else if bucket == 6 {
        (seq![true, true, true, true, true, true, true, false], 32)
    } else {
        (seq![true, true, true, true, true, true, true, true], 64)
    }
}

/// Whether `d` fits in `width` bits of two's complement.
pub open spec fn fits(d: i64, width: nat) -> bool {
    -pow2((width - 1) as nat) <= d < pow2((width - 1) as nat)
}

/// The rows are those of the format.
proof fn lemma_row(bucket: int)
    requires
        0 <= bucket < 8,
    ensures
        dod::prefix_of(bucket as nat) == row(bucket).0,
        dod::width_of(bucket as nat) == row(bucket).1,
{
    assert(dod::prefix_of(bucket as nat) =~= row(bucket).0);
}

/// A change of zero is one zero bit. Any other goes into the first of the eight buckets that it
/// fits, as the prefix of that bucket and its two's complement in the width of that bucket.
pub proof fn law_change_bits(d: i64, bucket: int)
    requires
        0 <= bucket < 8,
        d != 0,
        fits(d, row(bucket).1),
        bucket > 0 ==> !fits(d, row(bucket - 1).1),
    ensures
        dod::dod_bits(0) == seq![false],
        dod::dod_bits(d) == row(bucket).0 + bitseq::bits_of(
            (d as int % pow2(row(bucket).1) as int) as nat,
            row(bucket).1,
        ),
{
    lemma2_to64();
    lemma2_to64_rest();
    lemma_row(bucket);
    let width = row(bucket).1;
    assert(dod::bucket_of(d) == bucket);
    let modulus = pow2(width);
    let low = (d as int % modulus as int) as nat;
    assert(bitseq::twos(d) as nat % modulus == low && low % modulus == low) by {
        assert(modulus == 128 || modulus == 512 || modulus == 4096 || modulus == 65536 || modulus
            == 0x10_0000 || modulus == 0x100_0000 || modulus == 0x1_0000_0000 || modulus
            == 0x1_0000_0000_0000_0000);
    }
    bits::law_low_bits(bitseq::twos(d) as nat, low, width);
}

/// Every change fits one of the buckets, and what it costs grows with the bucket.
pub proof fn law_change_cost(d: i64)
    ensures
        fits(d, 64),
        dod::dod_bits(d).len() == (if d == 0 {
            1nat
        } else if fits(d, 7) {
            9
        } else if fits(d, 9) {
            12
        } else if fits(d, 12) {
            16
        } else if fits(d, 16) {
            21
        } else if fits(d, 20) {
            26
        } else if fits(d, 24) {
            31
        } else if fits(d, 32) {
            40
        } else {
            72
        }),
{
    lemma2_to64();
    lemma2_to64_rest();
    bitseq::lemma_bits_of_len(bitseq::twos(d) as nat, dod::width_of(dod::bucket_of(d)));
}

/// Whatever stands in a bucket is read back as two's complement, also where a narrower bucket
/// would have held it; a single zero is a change of zero.
pub proof fn law_read_change(bucket: int, payload: u64, rest: Seq<bool>)
    requires
        0 <= bucket < 8,
        payload < pow2(row(bucket).1),
    ensures
        dod::take_dod(seq![false] + rest) == Some((0i64, rest)),
        dod::take_dod(row(bucket).0 + (bitseq::bits_of(payload as nat, row(bucket).1) + rest))
            == Some(
            (
                (if payload < pow2((row(bucket).1 - 1) as nat) {
                    payload as int
                } else {
                    payload - pow2(row(bucket).1)
                }) as i64,
                rest,
            ),
        ),
{
    let tail = bitseq::bits_of(payload as nat, row(bucket).1) + rest;
    lemma_row(bucket);
    assert(dod::prefix_of(bucket as nat).skip(0) =~= row(bucket).0);
    dod::lemma_take_prefix(bucket as nat, 0, tail);
    bitseq::lemma_take_bits(payload, row(bucket).1, rest);
    reveal_with_fuel(dod::take_prefix, 2);
    bitseq::lemma_take_bit(false, rest);
}

/// Where a stream stands after values, the first of them stored elsewhere.
pub open spec fn reached(state: Dod, values: Seq<i64>) -> Dod
    decreases values.len(),
{
    if values.len() == 0 {
        state
    } else {
        reached(state, values.drop_last()).after(values.last())
    }
}

/// Where a stream stands does not depend on which end it is followed from.
pub(crate) proof fn lemma_reached_front(state: Dod, values: Seq<i64>)
    requires
        values.len() > 0,
    ensures
        reached(state, values) == reached(state.after(values[0]), values.skip(1)),
    decreases values.len(),
{
    if values.len() == 1 {
        reveal_with_fuel(reached, 2);
    } else {
        lemma_reached_front(state, values.drop_last());
        assert(values.drop_last().skip(1) =~= values.skip(1).drop_last());
    }
}

/// Where a stream stands is its last value and its last step.
pub(crate) proof fn lemma_reached(values: Seq<i64>)
    requires
        values.len() > 0,
    ensures
        reached(Dod::start(values[0]), values.skip(1)) == (Dod {
            previous: values.last(),
            delta: step(values),
        }),
    decreases values.len(),
{
    if values.len() > 1 {
        lemma_reached(values.drop_last());
        assert(values.drop_last().skip(1) =~= values.skip(1).drop_last());
    }
}

/// Appending a value appends its change.
proof fn lemma_stream_next(state: Dod, values: Seq<i64>, v: i64)
    ensures
        dod::stream_bits(state, values.push(v)) == dod::stream_bits(state, values)
            + dod::dod_bits(reached(state, values).change(v)),
    decreases values.len(),
{
    let longer = values.push(v);
    if values.len() == 0 {
        reveal_with_fuel(dod::stream_bits, 2);
        assert(longer.skip(1).len() == 0);
        assert(dod::stream_bits(state, longer) =~= dod::dod_bits(state.change(v)));
        assert(dod::stream_bits(state, values) + dod::dod_bits(state.change(v)) =~= dod::dod_bits(
            state.change(v),
        ));
    } else {
        let next = state.after(values[0]);
        assert(longer.skip(1) =~= values.skip(1).push(v));
        lemma_stream_next(next, values.skip(1), v);
        lemma_reached_front(state, values);
        bitseq::lemma_join(
            dod::dod_bits(state.change(values[0])),
            dod::stream_bits(next, values.skip(1)),
            dod::dod_bits(reached(state, values).change(v)),
        );
    }
}

/// A run of one value has nothing behind its first, and each further value appends the bits of
/// how its step differs from the step before.
pub proof fn law_run(values: Seq<i64>)
    requires
        values.len() > 0,
    ensures
        values.len() == 1 ==> dod::stream_bits(Dod::start(values[0]), values.skip(1)).len() == 0,
        values.len() > 1 ==> dod::stream_bits(Dod::start(values[0]), values.skip(1))
            == dod::stream_bits(Dod::start(values[0]), values.drop_last().skip(1)) + dod::dod_bits(
            change(values),
        ),
{
    if values.len() > 1 {
        let before = values.drop_last();
        assert(values.skip(1) =~= before.skip(1).push(values.last()));
        lemma_stream_next(Dod::start(values[0]), before.skip(1), values.last());
        lemma_reached(before);
    }
}

/// Appending a pair appends the change of the left one, and then that of the right one.
proof fn lemma_pair_next(
    left: Dod,
    right: Dod,
    lefts: Seq<i64>,
    rights: Seq<i64>,
    l: i64,
    r: i64,
)
    requires
        lefts.len() == rights.len(),
    ensures
        dod::pair_bits(left, right, lefts.push(l), rights.push(r)) == dod::pair_bits(
            left,
            right,
            lefts,
            rights,
        ) + (dod::dod_bits(reached(left, lefts).change(l)) + dod::dod_bits(
            reached(right, rights).change(r),
        )),
    decreases lefts.len(),
{
    let ls = lefts.push(l);
    let rs = rights.push(r);
    let last = dod::dod_bits(reached(left, lefts).change(l)) + dod::dod_bits(
        reached(right, rights).change(r),
    );
    if lefts.len() == 0 {
        reveal_with_fuel(dod::pair_bits, 2);
        assert(ls.skip(1).len() == 0);
        assert(dod::pair_bits(left, right, ls, rs) =~= last);
        assert(dod::pair_bits(left, right, lefts, rights) + last =~= last);
    } else {
        let a = left.after(lefts[0]);
        let b = right.after(rights[0]);
        assert(ls.skip(1) =~= lefts.skip(1).push(l));
        assert(rs.skip(1) =~= rights.skip(1).push(r));
        lemma_pair_next(a, b, lefts.skip(1), rights.skip(1), l, r);
        lemma_reached_front(left, lefts);
        lemma_reached_front(right, rights);
        let x = dod::dod_bits(left.change(lefts[0]));
        let y = dod::dod_bits(right.change(rights[0]));
        let more = dod::pair_bits(a, b, lefts.skip(1), rights.skip(1));
        bitseq::lemma_join(x, y + more, last);
        bitseq::lemma_join(y, more, last);
    }
}

/// Of two runs side by side, each further pair appends the change of the left run and then that
/// of the right one.
pub proof fn law_pairs(lefts: Seq<i64>, rights: Seq<i64>)
    requires
        lefts.len() == rights.len(),
        lefts.len() > 0,
    ensures
        lefts.len() == 1 ==> dod::pair_bits(
            Dod::start(lefts[0]),
            Dod::start(rights[0]),
            lefts.skip(1),
            rights.skip(1),
        ).len() == 0,
        lefts.len() > 1 ==> dod::pair_bits(
            Dod::start(lefts[0]),
            Dod::start(rights[0]),
            lefts.skip(1),
            rights.skip(1),
        ) == dod::pair_bits(
            Dod::start(lefts[0]),
            Dod::start(rights[0]),
            lefts.drop_last().skip(1),
            rights.drop_last().skip(1),
        ) + (dod::dod_bits(change(lefts)) + dod::dod_bits(change(rights))),
{
    if lefts.len() > 1 {
        let ls = lefts.drop_last();
        let rs = rights.drop_last();
        assert(lefts.skip(1) =~= ls.skip(1).push(lefts.last()));
        assert(rights.skip(1) =~= rs.skip(1).push(rights.last()));
        lemma_pair_next(
            Dod::start(lefts[0]),
            Dod::start(rights[0]),
            ls.skip(1),
            rs.skip(1),
            lefts.last(),
            rights.last(),
        );
        lemma_reached(ls);
        lemma_reached(rs);
    }
}

/// Reading one value more reads one change more.
proof fn lemma_read_stream_next(state: Dod, n: nat, s: Seq<bool>)
    ensures
        dod::take_stream(state, n + 1, s) == (match dod::take_stream(state, n, s) {
            None => None,
            Some((values, rest)) => match dod::take_dod(rest) {
                None => None,
                Some((c, rest)) => Some(
                    (values.push(reached(state, values).changed(c)), rest),
                ),
            },
        }),
    decreases n,
{
    if n == 0 {
        reveal_with_fuel(dod::take_stream, 3);
        if let Some((c, rest)) = dod::take_dod(s) {
            let v = state.changed(c);
            assert(seq![v] + Seq::<i64>::empty() =~= Seq::<i64>::empty().push(v));
        }
    } else if let Some((value, rest)) = state.take(s) {
        lemma_read_stream_next(state.after(value), (n - 1) as nat, rest);
        if let Some((values, rest)) = dod::take_stream(state.after(value), (n - 1) as nat, rest) {
            let longer = seq![value] + values;
            assert(longer.skip(1) =~= values);
            lemma_reached_front(state, longer);
            if let Some((c, rest)) = dod::take_dod(rest) {
                let v = reached(state, longer).changed(c);
                assert(seq![value] + values.push(v) =~= longer.push(v));
            }
        }
    }
}

/// Reading a run: each further value is the one before, moved on by the step before and by the
/// change that is read for it.
pub proof fn law_read_run(first: i64, n: nat, s: Seq<bool>)
    ensures
        dod::take_stream(Dod::start(first), 0, s) == Some((Seq::<i64>::empty(), s)),
        dod::take_stream(Dod::start(first), n + 1, s) == (match dod::take_stream(
            Dod::start(first),
            n,
            s,
        ) {
            None => None,
            Some((values, rest)) => match dod::take_dod(rest) {
                None => None,
                Some((c, rest)) => {
                    let run = seq![first] + values;
                    Some((values.push(run.last().wrapping_add(step(run).wrapping_add(c))), rest))
                },
            },
        }),
{
    lemma_read_stream_next(Dod::start(first), n, s);
    if let Some((values, rest)) = dod::take_stream(Dod::start(first), n, s) {
        let run = seq![first] + values;
        lemma_reached(run);
        assert(run.skip(1) =~= values);
    }
}

/// The left and the right values of pairs.
pub open spec fn lefts(pairs: Seq<(i64, i64)>) -> Seq<i64> {
    Seq::new(pairs.len(), |i: int| pairs[i].0)
}

/// The left and the right values of pairs.
pub open spec fn rights(pairs: Seq<(i64, i64)>) -> Seq<i64> {
    Seq::new(pairs.len(), |i: int| pairs[i].1)
}

/// Reading one pair more reads two changes more, the left one first.
proof fn lemma_read_pairs_next(left: Dod, right: Dod, n: nat, s: Seq<bool>)
    ensures
        dod::take_pairs(left, right, n + 1, s) == (match dod::take_pairs(left, right, n, s) {
            None => None,
            Some((pairs, rest)) => match dod::take_dod(rest) {
                None => None,
                Some((c, rest)) => match dod::take_dod(rest) {
                    None => None,
                    Some((d, rest)) => Some(
                        (
                            pairs.push(
                                (
                                    reached(left, lefts(pairs)).changed(c),
                                    reached(right, rights(pairs)).changed(d),
                                ),
                            ),
                            rest,
                        ),
                    ),
                },
            },
        }),
    decreases n,
{
    if n == 0 {
        reveal_with_fuel(dod::take_pairs, 3);
        let none = Seq::<(i64, i64)>::empty();
        assert(lefts(none) =~= Seq::<i64>::empty());
        assert(rights(none) =~= Seq::<i64>::empty());
        if let Some((c, rest)) = dod::take_dod(s) {
            if let Some((d, rest)) = dod::take_dod(rest) {
                let pair = (left.changed(c), right.changed(d));
                assert(seq![pair] + none =~= none.push(pair));
            }
        }
    } else if let Some((l, rest)) = left.take(s) {
        if let Some((r, rest)) = right.take(rest) {
            let a = left.after(l);
            let b = right.after(r);
            lemma_read_pairs_next(a, b, (n - 1) as nat, rest);
            if let Some((pairs, rest)) = dod::take_pairs(a, b, (n - 1) as nat, rest) {
                let longer = seq![(l, r)] + pairs;
                assert(lefts(longer).skip(1) =~= lefts(pairs));
                assert(rights(longer).skip(1) =~= rights(pairs));
                lemma_reached_front(left, lefts(longer));
                lemma_reached_front(right, rights(longer));
                if let Some((c, rest)) = dod::take_dod(rest) {
                    if let Some((d, rest)) = dod::take_dod(rest) {
                        let pair = (
                            reached(left, lefts(longer)).changed(c),
                            reached(right, rights(longer)).changed(d),
                        );
                        assert(seq![(l, r)] + pairs.push(pair) =~= longer.push(pair));
                    }
                }
            }
        }
    }
}

/// Reading two runs side by side: for each further pair the change of the left run is read
/// first, then that of the right one.
pub proof fn law_read_pairs(left: i64, right: i64, n: nat, s: Seq<bool>)
    ensures
        dod::take_pairs(Dod::start(left), Dod::start(right), 0, s) == Some(
            (Seq::<(i64, i64)>::empty(), s),
        ),
        dod::take_pairs(Dod::start(left), Dod::start(right), n + 1, s) == (match dod::take_pairs(
            Dod::start(left),
            Dod::start(right),
            n,
            s,
        ) {
            None => None,
            Some((pairs, rest)) => match dod::take_dod(rest) {
                None => None,
                Some((c, rest)) => match dod::take_dod(rest) {
                    None => None,
                    Some((d, rest)) => {
                        let ls = seq![left] + lefts(pairs);
                        let rs = seq![right] + rights(pairs);
                        Some(
                            (
                                pairs.push(
                                    (
                                        ls.last().wrapping_add(step(ls).wrapping_add(c)),
                                        rs.last().wrapping_add(step(rs).wrapping_add(d)),
                                    ),
                                ),
                                rest,
                            ),
                        )
                    },
                },
            },
        }),
{
    lemma_read_pairs_next(Dod::start(left), Dod::start(right), n, s);
    if let Some((pairs, rest)) = dod::take_pairs(Dod::start(left), Dod::start(right), n, s) {
        let ls = seq![left] + lefts(pairs);
        let rs = seq![right] + rights(pairs);
        lemma_reached(ls);
        lemma_reached(rs);
        assert(ls.skip(1) =~= lefts(pairs));
        assert(rs.skip(1) =~= rights(pairs));
    }
}

} // verus!
