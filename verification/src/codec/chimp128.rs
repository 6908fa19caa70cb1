//! Chimp128: as Chimp, with any of the last 128 values to XOR with.
//!
//! A value is compared with the latest one that shares its low bits, if that is recent enough.
//! The two then differ in their high bits only, and what is stored is short.

use crate::bits::{BitReader, BitWriter};
use crate::bitseq;
use crate::codec;
use crate::codec::chimp;
use crate::codec::dod;
use crate::codec::dod::Dod;
use crate::codec::{Codec, TAG_CHIMP128};
use crate::error::Error;
use crate::point::Point;
use vstd::arithmetic::div_mod::*;
use vstd::arithmetic::power2::*;
use vstd::prelude::*;
use vstd::std_specs::bits::*;

verus! {

/// The Chimp128 codec.
pub struct Chimp128;

/// How far back a value can lie and still be referred to.
pub const RECENT: u64 = 128;

/// How many keys there are: values are looked up by their low 14 bits.
pub const KEYS: u64 = 16384;

/// The values of points.
pub open spec fn values(points: Seq<Point>) -> Seq<u64> {
    Seq::new(points.len(), |i: int| points[i].value)
}

/// Where in `history` the latest value with this key stands.
pub open spec fn last_seen(history: Seq<u64>, key: u64) -> Option<nat>
    decreases history.len(),
{
    if history.len() == 0 {
        None
    } else if history.last() % KEYS == key {
        Some((history.len() - 1) as nat)
    } else {
        last_seen(history.drop_last(), key)
    }
}

/// Which earlier value a value is compared with by name: the latest that shares its low bits,
/// unless that is too old.
pub open spec fn reference_of(history: Seq<u64>, value: u64) -> Option<nat> {
    match last_seen(history, value % KEYS) {
        None => None,
        Some(i) => if history.len() - i <= RECENT {
            Some(i)
        } else {
            None
        },
    }
}

/// The name of an earlier value: its place, counted in cycles of 128.
pub open spec fn slot_of(i: nat) -> nat {
    i % (RECENT as nat)
}

/// The value that a name stands for: of those with that name, the latest.
pub open spec fn named(history: Seq<u64>, slot: u64) -> Option<u64> {
    let back = (history.len() - 1 - slot) % (RECENT as int);
    if back >= history.len() {
        None
    } else {
        Some(history[history.len() - 1 - back])
    }
}

/// How a value is written: compared with the one it refers to by name, or else with the one
/// before.
pub open spec fn value_bits(history: Seq<u64>, bucket: Option<u64>, value: u64) -> Seq<bool> {
    match reference_of(history, value) {
        None => chimp::open_bits(bucket, value ^ history.last()),
        Some(i) => {
            let xor = value ^ history[i as int];
            let slot = bitseq::bits_of(slot_of(i), 7);
            if xor == 0 {
                bitseq::bits_of(0, 2) + slot
            } else {
                bitseq::bits_of(1, 2) + (slot + chimp::window_bits(xor))
            }
        },
    }
}

/// The count of leading zeros that the value after can leave unstated. Referring by name leaves
/// none.
pub open spec fn bucket_after(history: Seq<u64>, value: u64) -> Option<u64> {
    match reference_of(history, value) {
        None => Some(chimp::index_of(value ^ history.last())),
        Some(i) => None,
    }
}

/// Takes a value off the front of a stream, and the count of leading zeros that it leaves. There
/// is none when it refers to a value that is not there.
pub open spec fn take_value(history: Seq<u64>, bucket: Option<u64>, s: Seq<bool>) -> Option<
    ((u64, Option<u64>), Seq<bool>),
> {
    match bitseq::take_bits(s, 2) {
        None => None,
        Some((prefix, rest)) => if prefix >= 2 {
            match chimp::take_open(prefix == 3, bucket, rest) {
                None => None,
                Some(((xor, index), rest)) => Some(((xor ^ history.last(), Some(index)), rest)),
            }
        } else {
            match bitseq::take_bits(rest, 7) {
                None => None,
                Some((slot, rest)) => match named(history, slot) {
                    None => None,
                    Some(reference) => if prefix == 0 {
                        Some(((reference, None), rest))
                    } else {
                        match chimp::take_window(rest) {
                            None => None,
                            Some((xor, rest)) => Some(((xor ^ reference, None), rest)),
                        }
                    },
                },
            }
        },
    }
}

/// The latest value with a key is one of those there, and has that key.
pub proof fn lemma_last_seen(history: Seq<u64>, key: u64)
    ensures
        last_seen(history, key) matches Some(i) ==> i < history.len() && history[i as int] % KEYS
            == key,
    decreases history.len(),
{
    if history.len() > 0 && history.last() % KEYS != key {
        lemma_last_seen(history.drop_last(), key);
    }
}

/// A recent value is found by its name.
proof fn lemma_named(history: Seq<u64>, i: nat)
    requires
        i < history.len() <= i + RECENT,
    ensures
        named(history, slot_of(i) as u64) == Some(history[i as int]),
{
    let back = history.len() - 1 - i;
    lemma_fundamental_div_mod(i as int, RECENT as int);
    lemma_fundamental_div_mod_converse(
        history.len() - 1 - slot_of(i),
        RECENT as int,
        i as int / RECENT as int,
        back,
    );
}

/// Values that share their low bits have an XOR with more than 13 trailing zeros.
proof fn lemma_low_bits(value: u64, other: u64)
    requires
        value % KEYS == other % KEYS,
    ensures
        u64_trailing_zeros(value ^ other) > 13,
{
    let xor = value ^ other;
    axiom_u64_trailing_zeros(xor);
    let zeros = u64_trailing_zeros(xor) as u64;
    if zeros <= 13 {
        assert((xor >> zeros) & 1u64 != 1u64) by (bit_vector)
            requires
                value % 16384 == other % 16384,
                xor == value ^ other,
                zeros <= 13,
        ;
    }
}

/// The value referred to is a recent one, is found by its name, and its XOR has more than 13
/// trailing zeros: enough for the name and the width to pay.
pub proof fn lemma_reference(history: Seq<u64>, value: u64)
    ensures
        reference_of(history, value) matches Some(i) ==> {
            &&& i < history.len() <= i + RECENT
            &&& named(history, slot_of(i) as u64) == Some(history[i as int])
            &&& u64_trailing_zeros(value ^ history[i as int]) > 13
        },
{
    lemma_last_seen(history, value % KEYS);
    if let Some(i) = reference_of(history, value) {
        lemma_named(history, i);
        lemma_low_bits(value, history[i as int]);
    }
}

/// A value is read back from what was written for it, and leaves the same count.
proof fn lemma_take_value(history: Seq<u64>, bucket: Option<u64>, value: u64, rest: Seq<bool>)
    ensures
        take_value(history, bucket, value_bits(history, bucket, value) + rest) == Some(
            ((value, bucket_after(history, value)), rest),
        ),
{
    assert(pow2(2) == 4 && pow2(7) == 128) by {
        lemma2_to64();
    }
    match reference_of(history, value) {
        None => {
            let last = history.last();
            chimp::lemma_take_open(bucket, value ^ last, rest);
            lemma_xor_back(value, last);
        },
        Some(i) => {
            let other = history[i as int];
            let xor = value ^ other;
            let slot = bitseq::bits_of(slot_of(i), 7);
            lemma_reference(history, value);
            lemma_xor_back(value, other);
            if xor == 0 {
                bitseq::lemma_join(bitseq::bits_of(0, 2), slot, rest);
                bitseq::lemma_take_bits(0, 2, slot + rest);
                bitseq::lemma_take_bits(slot_of(i) as u64, 7, rest);
            } else {
                let window = chimp::window_bits(xor);
                bitseq::lemma_join(bitseq::bits_of(1, 2), slot + window, rest);
                bitseq::lemma_join(slot, window, rest);
                bitseq::lemma_take_bits(1, 2, slot + (window + rest));
                bitseq::lemma_take_bits(slot_of(i) as u64, 7, window + rest);
                chimp::lemma_take_window(xor, rest);
            }
        },
    }
}

/// XOR undoes itself, and is zero only between equals.
proof fn lemma_xor_back(value: u64, other: u64)
    ensures
        (value ^ other) ^ other == value,
        value ^ other == 0 ==> value == other,
{
    assert((value ^ other) ^ other == value && (value ^ other == 0 ==> value == other))
        by (bit_vector);
}

/// A value taken off the front of a stream is taken off the front of any longer one alike.
proof fn lemma_extend_value(
    history: Seq<u64>,
    bucket: Option<u64>,
    s: Seq<bool>,
    more: Seq<bool>,
)
    ensures
        take_value(history, bucket, s) matches Some((taken, rest)) ==> take_value(
            history,
            bucket,
            s + more,
        ) == Some((taken, rest + more)),
{
    bitseq::lemma_extend_bits(s, 2, more);
    if let Some((prefix, rest)) = bitseq::take_bits(s, 2) {
        chimp::lemma_extend_open(prefix == 3, bucket, rest, more);
        bitseq::lemma_extend_bits(rest, 7, more);
        if let Some((slot, rest)) = bitseq::take_bits(rest, 7) {
            chimp::lemma_extend_window(rest, more);
        }
    }
}

/// How the points after the first are written.
pub open spec fn point_bits(
    times: Dod,
    history: Seq<u64>,
    bucket: Option<u64>,
    points: Seq<Point>,
) -> Seq<bool>
    decreases points.len(),
{
    if points.len() == 0 {
        Seq::empty()
    } else {
        let point = points[0];
        dod::dod_bits(times.change(point.timestamp)) + (value_bits(history, bucket, point.value)
            + point_bits(
            times.after(point.timestamp),
            history.push(point.value),
            bucket_after(history, point.value),
            points.skip(1),
        ))
    }
}

/// Takes `n` points after the first off the front of a stream.
pub open spec fn take_points(
    times: Dod,
    history: Seq<u64>,
    bucket: Option<u64>,
    n: nat,
    s: Seq<bool>,
) -> Option<(Seq<Point>, Seq<bool>)>
    decreases n,
{
    if n == 0 {
        Some((Seq::empty(), s))
    } else {
        match times.take(s) {
            None => None,
            Some((timestamp, rest)) => match take_value(history, bucket, rest) {
                None => None,
                Some(((value, bucket), rest)) => match take_points(
                    times.after(timestamp),
                    history.push(value),
                    bucket,
                    (n - 1) as nat,
                    rest,
                ) {
                    None => None,
                    Some((points, rest)) => Some((seq![Point { timestamp, value }] + points, rest)),
                },
            },
        }
    }
}

/// How the points of a block are written: the first of them whole, then the others.
pub open spec fn body_bits(points: Seq<Point>) -> Seq<bool> {
    let first = points[0];
    bitseq::varint(bitseq::zigzag_of(first.timestamp) as nat) + (bitseq::bits_of(
        first.value as nat,
        64,
    ) + point_bits(Dod::start(first.timestamp), seq![first.value], None, points.skip(1)))
}

/// The stream of a block: how many points there are, then the points.
pub open spec fn stream(points: Seq<Point>) -> Seq<bool> {
    let count = bitseq::varint(points.len());
    if points.len() == 0 {
        count
    } else {
        count + body_bits(points)
    }
}

/// Takes the points of a block off the front of a stream.
pub open spec fn taken(s: Seq<bool>) -> Option<(Seq<Point>, Seq<bool>)> {
    match bitseq::take_varint(s) {
        None => None,
        Some((count, rest)) => if count == 0 {
            Some((Seq::empty(), rest))
        } else {
            match bitseq::take_signed(rest) {
                None => None,
                Some((timestamp, rest)) => match bitseq::take_bits(rest, 64) {
                    None => None,
                    Some((value, rest)) => match take_points(
                        Dod::start(timestamp),
                        seq![value],
                        None,
                        (count - 1) as nat,
                        rest,
                    ) {
                        None => None,
                        Some((points, rest)) => Some(
                            (seq![Point { timestamp, value }] + points, rest),
                        ),
                    },
                },
            }
        },
    }
}

/// The points that a stream stands for.
pub open spec fn parsed(s: Seq<bool>) -> Option<Seq<Point>> {
    match taken(s) {
        None => None,
        Some((points, rest)) => Some(points),
    }
}

/// One point is read back from what was written for it, and the others after it.
proof fn lemma_take_point(
    times: Dod,
    history: Seq<u64>,
    bucket: Option<u64>,
    n: nat,
    point: Point,
    tail: Seq<bool>,
)
    ensures
        ({
            let value = value_bits(history, bucket, point.value);
            let s = dod::dod_bits(times.change(point.timestamp)) + (value + tail);
            take_points(times, history, bucket, n + 1, s) == (match take_points(
                times.after(point.timestamp),
                history.push(point.value),
                bucket_after(history, point.value),
                n,
                tail,
            ) {
                None => None,
                Some((points, rest)) => Some((seq![point] + points, rest)),
            })
        }),
{
    let after = value_bits(history, bucket, point.value) + tail;
    dod::lemma_take_next(times, point.timestamp, after);
    lemma_take_value(history, bucket, point.value, tail);
    assert(times.take(dod::dod_bits(times.change(point.timestamp)) + after) == Some(
        (point.timestamp, after),
    ));
    assert(take_value(history, bucket, after) == Some(
        ((point.value, bucket_after(history, point.value)), tail),
    ));
}

/// A run of points is read back from what was written for it.
proof fn lemma_take_points(
    times: Dod,
    history: Seq<u64>,
    bucket: Option<u64>,
    points: Seq<Point>,
    rest: Seq<bool>,
)
    ensures
        take_points(
            times,
            history,
            bucket,
            points.len(),
            point_bits(times, history, bucket, points) + rest,
        ) == Some((points, rest)),
    decreases points.len(),
{
    let s = point_bits(times, history, bucket, points) + rest;
    if points.len() == 0 {
        assert(s =~= rest);
        assert(points =~= Seq::<Point>::empty());
    } else {
        let point = points[0];
        let next = times.after(point.timestamp);
        let later = history.push(point.value);
        let left = bucket_after(history, point.value);
        let time = dod::dod_bits(times.change(point.timestamp));
        let value = value_bits(history, bucket, point.value);
        let others = point_bits(next, later, left, points.skip(1));
        let tail = others + rest;
        assert(s == time + (value + tail)) by {
            bitseq::lemma_join(time, value + others, rest);
            bitseq::lemma_join(value, others, rest);
        }
        lemma_take_point(times, history, bucket, (points.len() - 1) as nat, point, tail);
        lemma_take_points(next, later, left, points.skip(1), rest);
        assert(seq![point] + points.skip(1) =~= points);
    }
}

/// The points of a block are read back from its stream, whatever follows it.
pub proof fn lemma_roundtrip(points: Seq<Point>, rest: Seq<bool>)
    requires
        points.len() <= u32::MAX,
    ensures
        taken(stream(points) + rest) == Some((points, rest)),
{
    let count = points.len() as u64;
    if points.len() == 0 {
        bitseq::lemma_take_varint(count, rest);
        assert(points =~= Seq::<Point>::empty());
    } else {
        let first = points[0];
        let times = Dod::start(first.timestamp);
        let number = bitseq::varint(count as nat);
        let time = bitseq::varint(bitseq::zigzag_of(first.timestamp) as nat);
        let value = bitseq::bits_of(first.value as nat, 64);
        let others = point_bits(times, seq![first.value], None, points.skip(1));
        let third = others + rest;
        let second = value + third;
        assert(stream(points) + rest == number + (time + second)) by {
            bitseq::lemma_join(number, time + (value + others), rest);
            bitseq::lemma_join(time, value + others, rest);
            bitseq::lemma_join(value, others, rest);
        }
        bitseq::lemma_take_varint(count, time + second);
        bitseq::lemma_take_signed(first.timestamp, second);
        lemma2_to64_rest();
        bitseq::lemma_take_bits(first.value, 64, third);
        lemma_take_points(times, seq![first.value], None, points.skip(1), rest);
        assert(seq![first] + points.skip(1) =~= points);
    }
}

/// Points taken off the front of a stream are taken off the front of any longer one alike, and
/// are as many as were asked for.
proof fn lemma_extend_points(
    times: Dod,
    history: Seq<u64>,
    bucket: Option<u64>,
    n: nat,
    s: Seq<bool>,
    more: Seq<bool>,
)
    ensures
        take_points(times, history, bucket, n, s) matches Some((points, rest)) ==> {
            &&& take_points(times, history, bucket, n, s + more) == Some((points, rest + more))
            &&& points.len() == n
        },
    decreases n,
{
    if n > 0 {
        dod::lemma_extend_next(times, s, more);
        if let Some((timestamp, rest)) = times.take(s) {
            lemma_extend_value(history, bucket, rest, more);
            if let Some(((value, bucket), rest)) = take_value(history, bucket, rest) {
                lemma_extend_points(
                    times.after(timestamp),
                    history.push(value),
                    bucket,
                    (n - 1) as nat,
                    rest,
                    more,
                );
            }
        }
    }
}

/// The point count says where a stream ends: what follows it changes nothing, and it stands for
/// as many points as it says.
pub proof fn lemma_count(s: Seq<bool>, more: Seq<bool>)
    ensures
        taken(s) matches Some((points, rest)) ==> {
            &&& taken(s + more) == Some((points, rest + more))
            &&& bitseq::take_varint(s) matches Some((count, _)) && count == points.len()
        },
{
    bitseq::lemma_extend_varint(s, more);
    if let Some((count, rest)) = bitseq::take_varint(s) {
        bitseq::lemma_extend_varint(rest, more);
        if let Some((timestamp, rest)) = bitseq::take_signed(rest) {
            bitseq::lemma_extend_bits(rest, 64, more);
            if let Some((value, rest)) = bitseq::take_bits(rest, 64) {
                if count > 0 {
                    lemma_extend_points(
                        Dod::start(timestamp),
                        seq![value],
                        None,
                        (count - 1) as nat,
                        rest,
                        more,
                    );
                }
            }
        }
    }
}

/// Where the latest value with each key stands, one past its place, with zero for none.
struct Table {
    places: Vec<u64>,
}

impl Table {
    /// Whether the table is that of these values.
    spec fn of(self, history: Seq<u64>) -> bool {
        &&& self.places@.len() == KEYS
        &&& forall|key: u64|
            key < KEYS ==> #[trigger] self.places@[key as int] == (match last_seen(history, key) {
                None => 0,
                Some(i) => i + 1,
            })
    }

    /// The table of no values.
    fn new() -> (table: Table)
        ensures
            table.of(Seq::empty()),
    {
        let mut places: Vec<u64> = Vec::with_capacity(KEYS as usize);
        while places.len() < KEYS as usize
            invariant
                places@.len() <= KEYS,
                forall|k: int| 0 <= k < places@.len() ==> places@[k] == 0,
            decreases KEYS - places@.len(),
        {
            places.push(0);
        }
        Table { places }
    }

    /// Notes that `value` has come after `place` others.
    fn note(&mut self, Ghost(history): Ghost<Seq<u64>>, value: u64, place: usize)
        requires
            old(self).of(history),
            history.len() == place,
            place < u32::MAX,
        ensures
            final(self).of(history.push(value)),
    {
        let key: usize = (value % KEYS) as usize;
        self.places.set(key, place as u64 + 1);
        assert(history.push(value).drop_last() =~= history);
        assert forall|k: u64| k < KEYS implies #[trigger] self.places@[k as int] == (match last_seen(
            history.push(value),
            k,
        ) {
            None => 0,
            Some(i) => i + 1,
        }) by {
            assert(old(self).places@[k as int] == (match last_seen(history, k) {
                None => 0,
                Some(i) => i + 1,
            }));
        }
    }

    /// Which of `place` earlier values `value` refers to.
    fn reference(&self, Ghost(history): Ghost<Seq<u64>>, value: u64, place: usize) -> (result:
        Option<usize>)
        requires
            self.of(history),
            history.len() == place,
            place <= u32::MAX,
        ensures
            match reference_of(history, value) {
                None => result is None,
                Some(i) => result matches Some(found) && found == i,
            },
    {
        let key: u64 = value % KEYS;
        let seen: u64 = self.places[key as usize];
        proof {
            assert(self.places@[key as int] == seen);
            lemma_last_seen(history, key);
        }
        if seen == 0 || place as u64 - (seen - 1) > RECENT {
            None
        } else {
            Some((seen - 1) as usize)
        }
    }
}

/// Appends a value, and moves on the count of leading zeros. `earlier` are the values before it,
/// or rather the points that hold them.
fn write_value(
    w: &mut BitWriter,
    bucket: &mut Option<u64>,
    table: &Table,
    earlier: &[Point],
    value: u64,
)
    requires
        old(w).wf(),
        table.of(values(earlier@)),
        0 < earlier@.len() <= u32::MAX,
    ensures
        final(w).wf(),
        final(w)@ == old(w)@ + value_bits(values(earlier@), *old(bucket), value),
        *final(bucket) == bucket_after(values(earlier@), value),
{
    let ghost history = values(earlier@);
    let place: usize = earlier.len();
    match table.reference(Ghost(history), value, place) {
        None => chimp::write_open(w, bucket, value ^ earlier[place - 1].value),
        Some(i) => {
            proof {
                lemma_reference(history, value);
            }
            let xor: u64 = value ^ earlier[i].value;
            let slot: u64 = i as u64 % RECENT;
            if xor == 0 {
                w.write_bits(0, 2);
                w.write_bits(slot, 7);
            } else {
                w.write_bits(1, 2);
                w.write_bits(slot, 7);
                chimp::write_window(w, xor);
            }
            *bucket = None;
            assert(w@ =~= old(w)@ + value_bits(history, *old(bucket), value));
        },
    }
}

/// Reads a value, and moves on the count of leading zeros. `earlier` are the points before it.
fn read_value(r: &mut BitReader, bucket: &mut Option<u64>, earlier: &[Point]) -> (result: Result<
    u64,
    Error,
>)
    requires
        old(r).wf(),
        earlier@.len() > 0,
    ensures
        final(r).wf(),
        match take_value(values(earlier@), *old(bucket), old(r)@) {
            None => result == Err::<u64, Error>(Error::MalformedBlock),
            Some(((value, next), rest)) => {
                &&& result == Ok::<u64, Error>(value)
                &&& *final(bucket) == next
                &&& final(r)@ == rest
            },
        },
{
    let place: usize = earlier.len();
    let prefix: u64 = r.read_bits(2)?;
    if prefix >= 2 {
        let xor: u64 = chimp::read_open(r, prefix == 3, bucket)?;
        return Ok(xor ^ earlier[place - 1].value);
    }
    let slot: u64 = r.read_bits(7)?;
    proof {
        lemma2_to64();
    }
    let cycle: usize = RECENT as usize;
    let back: usize = (place % cycle + (cycle - 1) - slot as usize) % cycle;
    assert(back == (place - 1 - slot) % (RECENT as int));
    if back >= place {
        return Err(Error::MalformedBlock);
    }
    let reference: u64 = earlier[place - 1 - back].value;
    let value: u64 = if prefix == 0 {
        reference
    } else {
        chimp::read_window(r)? ^ reference
    };
    *bucket = None;
    Ok(value)
}

impl Codec for Chimp128 {
    open spec fn tag_of(&self, points: Seq<Point>) -> u8 {
        TAG_CHIMP128
    }

    open spec fn stream_of(&self, points: Seq<Point>) -> Seq<bool> {
        stream(points)
    }

    open spec fn called(&self) -> Seq<char> {
        "chimp128"@
    }

    fn name(&self) -> &'static str {
        "chimp128"
    }

    fn encode(&self, points: &[Point]) -> Result<Vec<u8>, Error> {
        codec::check_count(points.len())?;
        let mut w = BitWriter::with_capacity(points.len());
        w.write_varint(points.len() as u64);
        if points.len() > 0 {
            write_points(&mut w, points);
        }
        assert(w@ =~= stream(points@));
        let block: Vec<u8> = codec::seal(TAG_CHIMP128, w);
        proof {
            codec::lemma_chimp128_lossless(points@, block@);
        }
        Ok(block)
    }
}

/// Appends the points of a block.
fn write_points(w: &mut BitWriter, points: &[Point])
    requires
        old(w).wf(),
        0 < points@.len() <= u32::MAX,
    ensures
        final(w).wf(),
        final(w)@ == old(w)@ + body_bits(points@),
{
    let ghost goal = w@ + body_bits(points@);
    let first: Point = points[0];
    w.write_varint(crate::bits::zigzag(first.timestamp));
    w.write_bits(first.value, 64);
    let mut times = Dod::new(first.timestamp);
    let mut bucket: Option<u64> = None;
    let mut table = Table::new();
    table.note(Ghost(Seq::empty()), first.value, 0);
    let mut i: usize = 1;
    proof {
        assert(values(points@.take(1)) =~= seq![first.value]);
        assert(Seq::<u64>::empty().push(first.value) =~= seq![first.value]);
        assert(w@ + point_bits(times, seq![first.value], bucket, points@.skip(1)) =~= goal);
    }
    while i < points.len()
        invariant
            1 <= i <= points.len(),
            points@.len() <= u32::MAX,
            w.wf(),
            table.of(values(points@.take(i as int))),
            w@ + point_bits(times, values(points@.take(i as int)), bucket, points@.skip(i as int))
                == goal,
        decreases points.len() - i,
    {
        let point: Point = points[i];
        let earlier: &[Point] = &points[0..i];
        let ghost before = w@;
        let ghost tail = points@.skip(i as int);
        let ghost history = values(points@.take(i as int));
        let ghost state = (times, bucket);
        assert(earlier@ =~= points@.take(i as int));
        times.write(w, point.timestamp);
        write_value(w, &mut bucket, &table, earlier, point.value);
        table.note(Ghost(history), point.value, i);
        i = i + 1;
        proof {
            assert(values(points@.take(i as int)) =~= history.push(point.value));
            assert(tail.skip(1) =~= points@.skip(i as int));
            let time = dod::dod_bits(state.0.change(point.timestamp));
            let value = value_bits(history, state.1, point.value);
            let others = point_bits(times, history.push(point.value), bucket, tail.skip(1));
            bitseq::lemma_join(before, time, value);
            bitseq::lemma_join(before, time + value, others);
            bitseq::lemma_join(time, value, others);
        }
    }
    assert(points@.skip(i as int).len() == 0);
    assert(w@ =~= goal);
}

/// The points that the body of a Chimp128 block stands for.
pub fn decode(body: &[u8]) -> (result: Result<Vec<Point>, Error>)
    ensures
        codec::decodes(parsed(bitseq::unpack(body@)), result),
{
    let mut r = BitReader::new(body);
    let count: u64 = r.read_varint()?;
    let mut points: Vec<Point> = Vec::new();
    if count == 0 {
        assert(points@ =~= Seq::<Point>::empty());
        return Ok(points);
    }
    let timestamp: i64 = r.read_signed()?;
    let value: u64 = r.read_bits(64)?;
    points.push(Point::new(timestamp, value));
    let mut times = Dod::new(timestamp);
    let mut bucket: Option<u64> = None;
    let mut left: u64 = count - 1;
    let ghost goal = parsed(bitseq::unpack(body@));
    proof {
        assert(points@ =~= seq![Point { timestamp, value }]);
        assert(values(points@) =~= seq![value]);
    }
    while left > 0
        invariant
            goal == parsed(bitseq::unpack(body@)),
            r.wf(),
            points@.len() > 0,
            goal == (match take_points(times, values(points@), bucket, left as nat, r@) {
                None => None,
                Some((more, rest)) => Some(points@ + more),
            }),
        decreases left,
    {
        let ghost before = points@;
        let timestamp: i64 = times.read(&mut r)?;
        let value: u64 = read_value(&mut r, &mut bucket, points.as_slice())?;
        points.push(Point::new(timestamp, value));
        left = left - 1;
        proof {
            assert(points@ =~= before.push(Point { timestamp, value }));
            assert(values(points@) =~= values(before).push(value));
            if let Some((more, rest)) = take_points(
                times,
                values(points@),
                bucket,
                left as nat,
                r@,
            ) {
                assert(points@ + more =~= before + (seq![Point { timestamp, value }] + more));
            }
        }
    }
    assert(points@ + Seq::<Point>::empty() =~= points@);
    Ok(points)
}

} // verus!
