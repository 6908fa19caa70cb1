//! Delta-of-delta: a value is stored as the change in its distance from the one before.
//!
//! A steady interval costs one bit. Anything else costs a prefix and the narrowest of eight
//! two's complement buckets that holds it, and the widest bucket holds everything.

use crate::bits::{BitReader, BitWriter};
use crate::bitseq;
use crate::error::Error;
use vstd::arithmetic::div_mod::*;
use vstd::arithmetic::power2::*;
use vstd::bits::*;
use vstd::prelude::*;

verus! {

/// `n` one bits.
pub open spec fn ones(n: nat) -> Seq<bool> {
    Seq::new(n, |i: int| true)
}

/// The narrowest bucket that holds `d`.
pub open spec fn bucket_of(d: i64) -> nat {
    if -64 <= d < 64 {
        0
    } else if -256 <= d < 256 {
        1
    } else if -2048 <= d < 2048 {
        2
    } else if -32768 <= d < 32768 {
        3
    } else if -0x8_0000 <= d < 0x8_0000 {
        4
    } else if -0x80_0000 <= d < 0x80_0000 {
        5
    } else if -0x8000_0000 <= d < 0x8000_0000 {
        6
    } else {
        7
    }
}

/// How many bits a bucket has.
pub open spec fn width_of(bucket: nat) -> nat {
    if bucket == 0 {
        7
    } else if bucket == 1 {
        9
    } else if bucket == 2 {
        12
    } else if bucket == 3 {
        16
    } else if bucket == 4 {
        20
    } else if bucket == 5 {
        24
    } else if bucket == 6 {
        32
    } else {
        64
    }
}

/// The prefix that names a bucket: one more one than its number, ended by a zero except for the
/// last.
pub open spec fn prefix_of(bucket: nat) -> Seq<bool> {
    if bucket < 7 {
        ones(bucket + 1).push(false)
    } else {
        ones(8)
    }
}

/// The value whose two's complement in `width` bits is `v`.
pub open spec fn sign_extended(v: u64, width: nat) -> i64 {
    if v < pow2((width - 1) as nat) {
        v as i64
    } else {
        (v - pow2(width)) as i64
    }
}

/// How a delta of deltas is written.
pub open spec fn dod_bits(d: i64) -> Seq<bool> {
    if d == 0 {
        seq![false]
    } else {
        prefix_of(bucket_of(d)) + bitseq::bits_of(bitseq::twos(d) as nat, width_of(bucket_of(d)))
    }
}

/// Counts the ones that a stream starts with, after `seen` of them: up to the zero that ends
/// them, or up to eight.
pub open spec fn take_prefix(s: Seq<bool>, seen: nat) -> Option<(nat, Seq<bool>)>
    decreases 8 - seen,
{
    if seen >= 8 {
        Some((8, s))
    } else {
        match bitseq::take_bit(s) {
            None => None,
            Some((one, rest)) => if one {
                take_prefix(rest, seen + 1)
            } else {
                Some((seen, rest))
            },
        }
    }
}

/// Takes a delta of deltas off the front of a stream.
pub open spec fn take_dod(s: Seq<bool>) -> Option<(i64, Seq<bool>)> {
    match take_prefix(s, 0) {
        None => None,
        Some((count, rest)) => if count == 0 {
            Some((0, rest))
        } else {
            let width = width_of((count - 1) as nat);
            match bitseq::take_bits(rest, width) {
                None => None,
                Some((v, rest)) => Some((sign_extended(v, width), rest)),
            }
        },
    }
}

/// Where a delta-of-delta stream stands: the last value and the last distance.
#[derive(Clone, Copy, Debug)]
pub struct Dod {
    pub previous: i64,
    pub delta: i64,
}

impl Dod {
    /// The start of a stream whose first value is stored elsewhere.
    pub open spec fn start(first: i64) -> Dod {
        Dod { previous: first, delta: 0 }
    }

    /// What is stored for `value`: how its distance differs from the last one.
    pub open spec fn change(self, value: i64) -> i64 {
        value.wrapping_sub(self.previous).wrapping_sub(self.delta)
    }

    /// The value that a stored change stands for.
    pub open spec fn changed(self, change: i64) -> i64 {
        self.previous.wrapping_add(self.delta.wrapping_add(change))
    }

    /// Where the stream stands after `value`.
    pub open spec fn after(self, value: i64) -> Dod {
        Dod { previous: value, delta: value.wrapping_sub(self.previous) }
    }

    /// Takes the next value off the front of a stream.
    pub open spec fn take(self, s: Seq<bool>) -> Option<(i64, Seq<bool>)> {
        match take_dod(s) {
            None => None,
            Some((change, rest)) => Some((self.changed(change), rest)),
        }
    }
}

/// How a run of values is written.
pub open spec fn stream_bits(state: Dod, values: Seq<i64>) -> Seq<bool>
    decreases values.len(),
{
    if values.len() == 0 {
        Seq::empty()
    } else {
        dod_bits(state.change(values[0])) + stream_bits(state.after(values[0]), values.skip(1))
    }
}

/// Takes `n` values off the front of a stream.
pub open spec fn take_stream(state: Dod, n: nat, s: Seq<bool>) -> Option<(Seq<i64>, Seq<bool>)>
    decreases n,
{
    if n == 0 {
        Some((Seq::empty(), s))
    } else {
        match state.take(s) {
            None => None,
            Some((value, rest)) => match take_stream(state.after(value), (n - 1) as nat, rest) {
                None => None,
                Some((values, rest)) => Some((seq![value] + values, rest)),
            },
        }
    }
}

/// How two runs of values are written side by side, one value of each in turn.
pub open spec fn pair_bits(
    left: Dod,
    right: Dod,
    lefts: Seq<i64>,
    rights: Seq<i64>,
) -> Seq<bool>
    decreases lefts.len(),
{
    if lefts.len() == 0 {
        Seq::empty()
    } else {
        dod_bits(left.change(lefts[0])) + (dod_bits(right.change(rights[0])) + pair_bits(
            left.after(lefts[0]),
            right.after(rights[0]),
            lefts.skip(1),
            rights.skip(1),
        ))
    }
}

/// Takes `n` pairs of values off the front of a stream.
pub open spec fn take_pairs(left: Dod, right: Dod, n: nat, s: Seq<bool>) -> Option<
    (Seq<(i64, i64)>, Seq<bool>),
>
    decreases n,
{
    if n == 0 {
        Some((Seq::empty(), s))
    } else {
        match left.take(s) {
            None => None,
            Some((l, rest)) => match right.take(rest) {
                None => None,
                Some((r, rest)) => match take_pairs(
                    left.after(l),
                    right.after(r),
                    (n - 1) as nat,
                    rest,
                ) {
                    None => None,
                    Some((pairs, rest)) => Some((seq![(l, r)] + pairs, rest)),
                },
            },
        }
    }
}

/// The number of the narrowest bucket that holds `d`.
fn bucket(d: i64) -> (number: u32)
    ensures
        number == bucket_of(d),
{
    if -64 <= d && d < 64 {
        0
    } else if -256 <= d && d < 256 {
        1
    } else if -2048 <= d && d < 2048 {
        2
    } else if -32768 <= d && d < 32768 {
        3
    } else if -0x8_0000 <= d && d < 0x8_0000 {
        4
    } else if -0x80_0000 <= d && d < 0x80_0000 {
        5
    } else if -0x8000_0000 <= d && d < 0x8000_0000 {
        6
    } else {
        7
    }
}

/// How many bits bucket `number` has.
fn width(number: u32) -> (bits: u32)
    ensures
        bits == width_of(number as nat),
{
    match number {
        0 => 7,
        1 => 9,
        2 => 12,
        3 => 16,
        4 => 20,
        5 => 24,
        6 => 32,
        _ => 64,
    }
}

/// How many bits it takes to write `d`.
pub fn cost(d: i64) -> (bits: u32)
    ensures
        bits == dod_bits(d).len(),
        bits <= 72,
{
    if d == 0 {
        return 1;
    }
    let number: u32 = bucket(d);
    proof {
        bitseq::lemma_bits_of_len(bitseq::twos(d) as nat, width_of(bucket_of(d)));
    }
    let prefix: u32 = if number < 7 { number + 2 } else { 8 };
    prefix + width(number)
}

/// Appends a delta of deltas.
fn write_dod(w: &mut BitWriter, d: i64)
    requires
        old(w).wf(),
    ensures
        final(w).wf(),
        final(w)@ == old(w)@ + dod_bits(d),
{
    if d == 0 {
        w.write_bit(false);
        assert(w@ =~= old(w)@ + dod_bits(d));
        return ;
    }
    let number: u32 = bucket(d);
    let mut written: u32 = 0;
    assert(w@ =~= old(w)@ + ones(0));
    while written <= number
        invariant
            w.wf(),
            number < 8,
            written <= number + 1,
            w@ == old(w)@ + ones(written as nat),
        decreases number + 1 - written,
    {
        w.write_bit(true);
        assert(w@ =~= old(w)@ + ones((written + 1) as nat));
        written = written + 1;
    }
    if number < 7 {
        w.write_bit(false);
    }
    let raw: u64 = d as u64;
    proof {
        assert(w@ =~= old(w)@ + prefix_of(bucket_of(d)));
        bitseq::lemma_twos(d, raw);
    }
    w.write_bits(raw, width(number));
    assert(w@ =~= old(w)@ + dod_bits(d));
}

/// Reads a delta of deltas.
fn read_dod(r: &mut BitReader) -> (result: Result<i64, Error>)
    requires
        old(r).wf(),
    ensures
        final(r).wf(),
        crate::bits::reads(take_dod(old(r)@), result, final(r)@),
{
    let ghost start = r@;
    let mut count: u32 = 0;
    let mut more: bool = true;
    while more && count < 8
        invariant
            r.wf(),
            start == old(r)@,
            count <= 8,
            more ==> take_prefix(start, 0) == take_prefix(r@, count as nat),
            !more ==> take_prefix(start, 0) == Some((count as nat, r@)),
        decreases 8 - count + (if more { 1int } else { 0int }),
    {
        match r.read_bit() {
            Err(e) => {
                return Err(e);
            },
            Ok(one) => {
                if one {
                    count = count + 1;
                } else {
                    more = false;
                }
            },
        }
    }
    if count == 0 {
        return Ok(0);
    }
    let width: u32 = width(count - 1);
    let v: u64 = match r.read_bits(width) {
        Err(e) => {
            return Err(e);
        },
        Ok(v) => v,
    };
    proof {
        lemma2_to64();
        lemma2_to64_rest();
    }
    if width == 64 {
        proof {
            bitseq::lemma_twos(0, v);
        }
        return Ok(v as i64);
    }
    proof {
        lemma_u64_shl_is_mul(1, width as u64);
        lemma_u64_shl_is_mul(1, (width - 1) as u64);
        assert(1u64 << width == 1u64 << (width as u64)) by (bit_vector);
        assert(1u64 << ((width - 1) as u32) == 1u64 << ((width - 1) as u64)) by (bit_vector)
            requires
                0 < width < 64,
        ;
    }
    let half: u64 = 1u64 << (width - 1);
    let whole: u64 = 1u64 << width;
    if v < half {
        Ok(v as i64)
    } else {
        Ok(v as i64 - whole as i64)
    }
}

impl Dod {
    /// The start of a stream whose first value, `first`, is stored elsewhere.
    pub fn new(first: i64) -> (state: Dod)
        ensures
            state == Dod::start(first),
    {
        Dod { previous: first, delta: 0 }
    }

    /// Appends the next value.
    pub fn write(&mut self, w: &mut BitWriter, value: i64)
        requires
            old(w).wf(),
        ensures
            final(w).wf(),
            final(w)@ == old(w)@ + dod_bits(old(self).change(value)),
            *final(self) == old(self).after(value),
    {
        let delta: i64 = value.wrapping_sub(self.previous);
        write_dod(w, delta.wrapping_sub(self.delta));
        self.previous = value;
        self.delta = delta;
    }

    /// Reads the next value.
    pub fn read(&mut self, r: &mut BitReader) -> (result: Result<i64, Error>)
        requires
            old(r).wf(),
        ensures
            final(r).wf(),
            crate::bits::reads(old(self).take(old(r)@), result, final(r)@),
            result matches Ok(value) ==> *final(self) == old(self).after(value),
    {
        match read_dod(r) {
            Err(e) => Err(e),
            Ok(change) => {
                let delta: i64 = self.delta.wrapping_add(change);
                let value: i64 = self.previous.wrapping_add(delta);
                self.previous = value;
                self.delta = delta;
                Ok(value)
            },
        }
    }
}

/// The prefix of a bucket is read back as the number of its ones.
pub proof fn lemma_take_prefix(bucket: nat, seen: nat, rest: Seq<bool>)
    requires
        bucket < 8,
        seen <= bucket + 1,
    ensures
        take_prefix(prefix_of(bucket).skip(seen as int) + rest, seen) == Some((bucket + 1, rest)),
    decreases 8 - seen,
{
    let s = prefix_of(bucket).skip(seen as int) + rest;
    if seen == bucket + 1 {
        if bucket == 7 {
            assert(s =~= rest);
        } else {
            assert(s.skip(1) =~= rest);
        }
    } else {
        lemma_take_prefix(bucket, seen + 1, rest);
        assert(s.skip(1) =~= prefix_of(bucket).skip((seen + 1) as int) + rest);
    }
}

/// Two's complement in a bucket wide enough is undone by sign extension.
proof fn lemma_sign_extended(d: i64, width: nat)
    requires
        0 < width <= 64,
        -pow2((width - 1) as nat) <= d < pow2((width - 1) as nat),
    ensures
        bitseq::twos(d) as nat % pow2(width) <= u64::MAX,
        sign_extended((bitseq::twos(d) as nat % pow2(width)) as u64, width) == d,
{
    let modulus = pow2(width) as int;
    lemma_pow2_pos((width - 1) as nat);
    lemma_pow2_unfold(width);
    lemma2_to64();
    lemma2_to64_rest();
    lemma_pow2_adds(width, (64 - width) as nat);
    lemma_pow2_pos((64 - width) as nat);
    if width < 64 {
        lemma_pow2_strictly_increases(width, 64);
    }
    if d >= 0 {
        lemma_small_mod(d as nat, pow2(width));
    } else {
        lemma_mod_multiples_vanish(pow2((64 - width) as nat) - 1, d + modulus, modulus);
        vstd::arithmetic::mul::lemma_mul_is_distributive_sub(
            modulus,
            pow2((64 - width) as nat) as int,
            1,
        );
        lemma_small_mod((d + modulus) as nat, pow2(width));
    }
}

/// A value costs at least one bit, and at most 72.
pub proof fn lemma_dod_bound(d: i64)
    ensures
        1 <= dod_bits(d).len() <= 72,
{
    bitseq::lemma_bits_of_len(bitseq::twos(d) as nat, width_of(bucket_of(d)));
}

/// A run costs at least one bit to a value, and at most 72.
pub proof fn lemma_stream_bound(state: Dod, values: Seq<i64>)
    ensures
        values.len() <= stream_bits(state, values).len() <= 72 * values.len(),
    decreases values.len(),
{
    if values.len() > 0 {
        lemma_dod_bound(state.change(values[0]));
        lemma_stream_bound(state.after(values[0]), values.skip(1));
    }
}

/// Reading a delta of deltas off the front of a stream that starts with it gives it back.
pub proof fn lemma_take_dod(d: i64, rest: Seq<bool>)
    ensures
        take_dod(dod_bits(d) + rest) == Some((d, rest)),
{
    let s = dod_bits(d) + rest;
    if d == 0 {
        assert(s.skip(1) =~= rest);
        reveal_with_fuel(take_prefix, 2);
    } else {
        let bucket = bucket_of(d);
        let width = width_of(bucket);
        let tail = bitseq::bits_of(bitseq::twos(d) as nat, width) + rest;
        assert(s =~= prefix_of(bucket).skip(0) + tail);
        lemma_take_prefix(bucket, 0, tail);
        lemma2_to64();
        lemma2_to64_rest();
        lemma_sign_extended(d, width);
        bitseq::lemma_bits_of_len(bitseq::twos(d) as nat, width);
        bitseq::lemma_value_of_bits(bitseq::twos(d) as nat, width);
        assert(tail.take(width as int) =~= bitseq::bits_of(bitseq::twos(d) as nat, width));
        assert(tail.skip(width as int) =~= rest);
    }
}

/// The next value is read back from what was written for it.
pub proof fn lemma_take_next(state: Dod, value: i64, rest: Seq<bool>)
    ensures
        state.take(dod_bits(state.change(value)) + rest) == Some((value, rest)),
{
    lemma_take_dod(state.change(value), rest);
    assert(state.changed(state.change(value)) == value);
}

/// A run of values is read back from what was written for it.
pub proof fn lemma_take_stream(state: Dod, values: Seq<i64>, rest: Seq<bool>)
    ensures
        take_stream(state, values.len(), stream_bits(state, values) + rest) == Some((values, rest)),
    decreases values.len(),
{
    let s = stream_bits(state, values) + rest;
    if values.len() == 0 {
        assert(s =~= rest);
        assert(values =~= Seq::<i64>::empty());
    } else {
        let first = values[0];
        let tail = stream_bits(state.after(first), values.skip(1)) + rest;
        assert(s =~= dod_bits(state.change(first)) + tail);
        lemma_take_next(state, first, tail);
        lemma_take_stream(state.after(first), values.skip(1), rest);
        assert(seq![first] + values.skip(1) =~= values);
    }
}

/// Two runs side by side are read back from what was written for them.
pub proof fn lemma_take_pairs(
    left: Dod,
    right: Dod,
    lefts: Seq<i64>,
    rights: Seq<i64>,
    rest: Seq<bool>,
)
    requires
        lefts.len() == rights.len(),
    ensures
        take_pairs(left, right, lefts.len(), pair_bits(left, right, lefts, rights) + rest) == Some(
            (lefts.zip_with(rights), rest),
        ),
    decreases lefts.len(),
{
    let s = pair_bits(left, right, lefts, rights) + rest;
    if lefts.len() == 0 {
        assert(s =~= rest);
        assert(lefts.zip_with(rights) =~= Seq::<(i64, i64)>::empty());
    } else {
        let l = lefts[0];
        let r = rights[0];
        let tail = pair_bits(left.after(l), right.after(r), lefts.skip(1), rights.skip(1)) + rest;
        let after = dod_bits(right.change(r)) + tail;
        assert(s =~= dod_bits(left.change(l)) + after);
        lemma_take_next(left, l, after);
        lemma_take_next(right, r, tail);
        lemma_take_pairs(left.after(l), right.after(r), lefts.skip(1), rights.skip(1), rest);
        assert(seq![(l, r)] + lefts.skip(1).zip_with(rights.skip(1)) =~= lefts.zip_with(rights));
    }
}

/// A prefix taken off the front of a stream is taken off the front of any longer one alike.
proof fn lemma_extend_prefix(s: Seq<bool>, seen: nat, more: Seq<bool>)
    ensures
        take_prefix(s, seen) matches Some((n, rest)) ==> take_prefix(s + more, seen) == Some(
            (n, rest + more),
        ),
    decreases 8 - seen,
{
    if seen < 8 {
        bitseq::lemma_extend_bits(s, 0, more);
        if let Some((one, rest)) = bitseq::take_bit(s) {
            lemma_extend_prefix(rest, seen + 1, more);
        }
    }
}

/// A value taken off the front of a stream is taken off the front of any longer one alike.
pub proof fn lemma_extend_next(state: Dod, s: Seq<bool>, more: Seq<bool>)
    ensures
        state.take(s) matches Some((v, rest)) ==> state.take(s + more) == Some((v, rest + more)),
{
    lemma_extend_prefix(s, 0, more);
    if let Some((count, rest)) = take_prefix(s, 0) {
        bitseq::lemma_extend_bits(rest, width_of((count - 1) as nat), more);
    }
}

/// A run taken off the front of a stream is taken off the front of any longer one alike, and has
/// as many values as were asked for.
pub proof fn lemma_extend_stream(state: Dod, n: nat, s: Seq<bool>, more: Seq<bool>)
    ensures
        take_stream(state, n, s) matches Some((values, rest)) ==> {
            &&& take_stream(state, n, s + more) == Some((values, rest + more))
            &&& values.len() == n
        },
    decreases n,
{
    if n > 0 {
        lemma_extend_next(state, s, more);
        if let Some((value, rest)) = state.take(s) {
            lemma_extend_stream(state.after(value), (n - 1) as nat, rest, more);
        }
    }
}

/// Two runs taken off the front of a stream are taken off the front of any longer one alike, and
/// have as many values as were asked for.
pub proof fn lemma_extend_pairs(left: Dod, right: Dod, n: nat, s: Seq<bool>, more: Seq<bool>)
    ensures
        take_pairs(left, right, n, s) matches Some((pairs, rest)) ==> {
            &&& take_pairs(left, right, n, s + more) == Some((pairs, rest + more))
            &&& pairs.len() == n
        },
    decreases n,
{
    if n > 0 {
        lemma_extend_next(left, s, more);
        if let Some((l, rest)) = left.take(s) {
            lemma_extend_next(right, rest, more);
            if let Some((r, rest)) = right.take(rest) {
                lemma_extend_pairs(left.after(l), right.after(r), (n - 1) as nat, rest, more);
            }
        }
    }
}

/// A steady interval costs one bit to a value.
pub proof fn lemma_steady(state: Dod, values: Seq<i64>)
    requires
        forall|i: int|
            0 <= i < values.len() ==> (#[trigger] values[i]).wrapping_sub(
                if i == 0 {
                    state.previous
                } else {
                    values[i - 1]
                },
            ) == state.delta,
    ensures
        stream_bits(state, values) == bitseq::zeros(values.len()),
    decreases values.len(),
{
    if values.len() > 0 {
        let first = values[0];
        let tail = values.skip(1);
        let next = state.after(first);
        assert(state.change(first) == 0);
        assert forall|i: int| 0 <= i < tail.len() implies (#[trigger] tail[i]).wrapping_sub(
            if i == 0 {
                next.previous
            } else {
                tail[i - 1]
            },
        ) == next.delta by {
            assert(tail[i] == values[i + 1]);
        }
        lemma_steady(next, tail);
        assert(stream_bits(state, values) =~= bitseq::zeros(values.len()));
    } else {
        assert(stream_bits(state, values) =~= bitseq::zeros(0));
    }
}

/// From the start of a stream, a steady interval costs one bucket for the first value, and one
/// bit for each other.
pub proof fn lemma_steady_start(first: i64, step: i64, values: Seq<i64>)
    requires
        values.len() > 0,
        forall|i: int|
            0 <= i < values.len() ==> (#[trigger] values[i]).wrapping_sub(
                if i == 0 {
                    first
                } else {
                    values[i - 1]
                },
            ) == step,
    ensures
        stream_bits(Dod::start(first), values).len() == dod_bits(step).len() + values.len() - 1,
{
    let state = Dod::start(first);
    let tail = values.skip(1);
    let next = state.after(values[0]);
    assert(state.change(values[0]) == step);
    assert forall|i: int| 0 <= i < tail.len() implies (#[trigger] tail[i]).wrapping_sub(
        if i == 0 {
            next.previous
        } else {
            tail[i - 1]
        },
    ) == next.delta by {
        assert(tail[i] == values[i + 1]);
    }
    lemma_steady(next, tail);
}

/// Two runs side by side take as many bits as one after the other.
pub proof fn lemma_pair_len(left: Dod, right: Dod, lefts: Seq<i64>, rights: Seq<i64>)
    requires
        lefts.len() == rights.len(),
    ensures
        pair_bits(left, right, lefts, rights).len() == stream_bits(left, lefts).len() + stream_bits(
            right,
            rights,
        ).len(),
    decreases lefts.len(),
{
    if lefts.len() > 0 {
        lemma_pair_len(
            left.after(lefts[0]),
            right.after(rights[0]),
            lefts.skip(1),
            rights.skip(1),
        );
    }
}

} // verus!
