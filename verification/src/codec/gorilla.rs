//! Gorilla: each value is XORed with the one before, and only the bits that differ are stored.
//!
//! Every bit pattern is as good as any other here, which is what makes this the codec that the
//! others fall back on.

use crate::bits::{BitReader, BitWriter};
use crate::bitseq;
use crate::codec;
use crate::codec::dod;
use crate::codec::dod::Dod;
use crate::codec::{Codec, TAG_GORILLA};
use crate::error::Error;
use crate::point::Point;
use vstd::arithmetic::div_mod::*;
use vstd::arithmetic::power2::*;
use vstd::bits::*;
use vstd::prelude::*;
use vstd::std_specs::bits::*;

verus! {

/// The Gorilla codec.
pub struct Gorilla;

/// Where the bits of an XOR that are stored lie: how many there are above and below.
#[derive(Clone, Copy, Debug)]
pub struct Window {
    pub leading: u64,
    pub trailing: u64,
}

impl Window {
    /// Whether something lies between the two ends.
    pub open spec fn wf(self) -> bool {
        self.leading + self.trailing < 64
    }

    /// How many bits are stored.
    pub open spec fn width(self) -> nat {
        (64 - self.leading - self.trailing) as nat
    }

    /// Whether everything outside the window is zero.
    pub open spec fn holds(self, xor: u64) -> bool {
        u64_leading_zeros(xor) >= self.leading && u64_trailing_zeros(xor) >= self.trailing
    }
}

/// The window for an XOR: all its leading zeros as far as a 5-bit field can say, and all its
/// trailing zeros.
pub open spec fn window_for(xor: u64) -> Window {
    Window {
        leading: (if u64_leading_zeros(xor) < 31 { u64_leading_zeros(xor) } else { 31 }) as u64,
        trailing: u64_trailing_zeros(xor) as u64,
    }
}

/// Whether the window of an earlier value will do.
pub open spec fn reusable(window: Option<Window>, xor: u64) -> bool {
    window matches Some(window) && window.holds(xor)
}

/// The window after a value.
pub open spec fn window_after(window: Option<Window>, xor: u64) -> Option<Window> {
    if xor == 0 || reusable(window, xor) {
        window
    } else {
        Some(window_for(xor))
    }
}

/// How an XOR is written.
pub open spec fn xor_bits(window: Option<Window>, xor: u64) -> Seq<bool> {
    if xor == 0 {
        seq![false]
    } else if reusable(window, xor) {
        let window = window->Some_0;
        seq![true] + (seq![false] + bitseq::bits_of(
            (xor >> window.trailing) as nat,
            window.width(),
        ))
    } else {
        seq![true] + (seq![true] + fresh_bits(xor))
    }
}

/// How an XOR is written with a window of its own: the leading zeros, the width, with 64 as zero,
/// and what the window holds.
pub open spec fn fresh_bits(xor: u64) -> Seq<bool> {
    let window = window_for(xor);
    bitseq::bits_of(window.leading as nat, 5) + (bitseq::bits_of(window.width() % 64, 6)
        + bitseq::bits_of((xor >> window.trailing) as nat, window.width()))
}

/// Takes an XOR with a window of its own off the front of a stream. There is none when the window
/// does not fit in 64 bits.
pub open spec fn take_fresh(s: Seq<bool>) -> Option<((u64, Window), Seq<bool>)> {
    match bitseq::take_bits(s, 5) {
        None => None,
        Some((leading, rest)) => match bitseq::take_bits(rest, 6) {
            None => None,
            Some((field, rest)) => {
                let width = if field == 0 { 64 } else { field as int };
                if leading + width > 64 {
                    None
                } else {
                    let trailing = (64 - leading - width) as u64;
                    match bitseq::take_bits(rest, width as nat) {
                        None => None,
                        Some((bits, rest)) => Some(
                            ((bits << trailing, Window { leading, trailing }), rest),
                        ),
                    }
                }
            },
        },
    }
}

/// Takes an XOR off the front of a stream, and the window that it leaves.
pub open spec fn take_xor(window: Option<Window>, s: Seq<bool>) -> Option<
    ((u64, Option<Window>), Seq<bool>),
> {
    match bitseq::take_bit(s) {
        None => None,
        Some((false, rest)) => Some(((0, window), rest)),
        Some((true, rest)) => match bitseq::take_bit(rest) {
            None => None,
            Some((false, rest)) => match window {
                None => None,
                Some(w) => match bitseq::take_bits(rest, w.width()) {
                    None => None,
                    Some((bits, rest)) => Some(((bits << w.trailing, window), rest)),
                },
            },
            Some((true, rest)) => match take_fresh(rest) {
                None => None,
                Some(((xor, window), rest)) => Some(((xor, Some(window)), rest)),
            },
        },
    }
}

/// How the points after the first are written.
pub open spec fn point_bits(
    times: Dod,
    previous: u64,
    window: Option<Window>,
    points: Seq<Point>,
) -> Seq<bool>
    decreases points.len(),
{
    if points.len() == 0 {
        Seq::empty()
    } else {
        let point = points[0];
        let xor = point.value ^ previous;
        dod::dod_bits(times.change(point.timestamp)) + (xor_bits(window, xor) + point_bits(
            times.after(point.timestamp),
            point.value,
            window_after(window, xor),
            points.skip(1),
        ))
    }
}

/// Takes `n` points after the first off the front of a stream.
pub open spec fn take_points(
    times: Dod,
    previous: u64,
    window: Option<Window>,
    n: nat,
    s: Seq<bool>,
) -> Option<(Seq<Point>, Seq<bool>)>
    decreases n,
{
    if n == 0 {
        Some((Seq::empty(), s))
    } else {
        match times.take(s) {
            None => None,
            Some((timestamp, rest)) => match take_xor(window, rest) {
                None => None,
                Some(((xor, window), rest)) => {
                    let value = xor ^ previous;
                    match take_points(
                        times.after(timestamp),
                        value,
                        window,
                        (n - 1) as nat,
                        rest,
                    ) {
                        None => None,
                        Some((points, rest)) => Some(
                            (seq![Point { timestamp, value }] + points, rest),
                        ),
                    }
                },
            },
        }
    }
}

/// The stream of a block: how many points there are, the first of them whole, then the others.
pub open spec fn stream(points: Seq<Point>) -> Seq<bool> {
    let count = bitseq::varint(points.len());
    if points.len() == 0 {
        count
    } else {
        let first = points[0];
        count + (bitseq::varint(bitseq::zigzag_of(first.timestamp) as nat) + (bitseq::bits_of(
            first.value as nat,
            64,
        ) + point_bits(Dod::start(first.timestamp), first.value, None, points.skip(1))))
    }
}

/// Takes the points of a block off the front of a stream.
pub open spec fn taken(s: Seq<bool>) -> Option<(Seq<Point>, Seq<bool>)> {
    match bitseq::take_varint(s) {
        None => None,
        Some((count, rest)) => if count == 0 {
            Some((Seq::empty(), rest))
        } else {
            match bitseq::take_signed(rest) {
                None => None,
                Some((timestamp, rest)) => match bitseq::take_bits(rest, 64) {
                    None => None,
                    Some((value, rest)) => match take_points(
                        Dod::start(timestamp),
                        value,
                        None,
                        (count - 1) as nat,
                        rest,
                    ) {
                        None => None,
                        Some((points, rest)) => Some(
                            (seq![Point { timestamp, value }] + points, rest),
                        ),
                    },
                },
            }
        },
    }
}

/// The points that a stream stands for.
pub open spec fn parsed(s: Seq<bool>) -> Option<Seq<Point>> {
    match taken(s) {
        None => None,
        Some((points, rest)) => Some(points),
    }
}

/// A window that holds an XOR keeps every bit of it.
pub proof fn lemma_window(window: Window, xor: u64)
    requires
        window.wf(),
        window.holds(xor),
    ensures
        (xor >> window.trailing) < pow2(window.width()),
        (xor >> window.trailing) << window.trailing == xor,
{
    let l = window.leading;
    let t = window.trailing;
    let w = window.width() as u64;
    axiom_u64_leading_zeros(xor);
    axiom_u64_trailing_zeros(xor);
    let lz = u64_leading_zeros(xor) as u64;
    let tz = u64_trailing_zeros(xor) as u64;
    let below = (64 - tz) as u64;
    let above = (64 - lz) as u64;
    assert((xor >> t) << t == xor && (w < 64 ==> (xor >> t) >> w == 0)) by (bit_vector)
        requires
            l + t < 64,
            l <= lz <= 64,
            t <= tz <= 64,
            below == 64 - tz,
            above == 64 - lz,
            xor << below == 0,
            xor >> above == 0,
            w == 64 - l - t,
    ;
    lemma2_to64_rest();
    if w < 64 {
        let kept = xor >> t;
        lemma_u64_shr_is_div(kept, w);
        lemma_pow2_pos(w as nat);
        lemma_fundamental_div_mod(kept as int, pow2(w as nat) as int);
    }
}

/// The zeros at the two ends of an XOR leave something between them.
pub proof fn lemma_zeros(xor: u64)
    requires
        xor != 0,
    ensures
        u64_leading_zeros(xor) + u64_trailing_zeros(xor) < 64,
{
    axiom_u64_leading_zeros(xor);
    axiom_u64_trailing_zeros(xor);
    let lz = u64_leading_zeros(xor) as u64;
    let tz = u64_trailing_zeros(xor) as u64;
    let below = (64 - tz) as u64;
    let above = (64 - lz) as u64;
    assert(lz + tz < 64) by (bit_vector)
        requires
            lz <= 64,
            tz <= 64,
            below == 64 - tz,
            above == 64 - lz,
            xor << below == 0,
            xor >> above == 0,
            xor != 0,
    ;
}

/// The window made for an XOR holds it.
proof fn lemma_window_for(xor: u64)
    requires
        xor != 0,
    ensures
        window_for(xor).wf(),
        window_for(xor).holds(xor),
        window_for(xor).leading <= 31,
{
    lemma_zeros(xor);
}

/// An XOR in an earlier window is read back from what was written for it.
proof fn lemma_take_reused(window: Window, xor: u64, rest: Seq<bool>)
    requires
        window.wf(),
        window.holds(xor),
        xor != 0,
    ensures
        take_xor(Some(window), xor_bits(Some(window), xor) + rest) == Some(
            ((xor, Some(window)), rest),
        ),
{
    let kept = xor >> window.trailing;
    let value = bitseq::bits_of(kept as nat, window.width());
    lemma_window(window, xor);
    assert(xor_bits(Some(window), xor) + rest == seq![true] + (seq![false] + (value + rest))) by {
        bitseq::lemma_join(seq![true], seq![false] + value, rest);
        bitseq::lemma_join(seq![false], value, rest);
    }
    bitseq::lemma_take_bit(true, seq![false] + (value + rest));
    bitseq::lemma_take_bit(false, value + rest);
    bitseq::lemma_take_bits(kept, window.width(), rest);
}

/// An XOR in a window of its own is read back from what was written for it.
proof fn lemma_take_fresh(xor: u64, rest: Seq<bool>)
    requires
        xor != 0,
    ensures
        take_fresh(fresh_bits(xor) + rest) == Some(((xor, window_for(xor)), rest)),
{
    let w = window_for(xor);
    lemma_window_for(xor);
    lemma_window(w, xor);
    let kept = xor >> w.trailing;
    let field = (w.width() % 64) as u64;
    let leading = bitseq::bits_of(w.leading as nat, 5);
    let width = bitseq::bits_of(field as nat, 6);
    let value = bitseq::bits_of(kept as nat, w.width());
    let second = width + (value + rest);
    assert(fresh_bits(xor) + rest == leading + second) by {
        bitseq::lemma_join(leading, width + value, rest);
        bitseq::lemma_join(width, value, rest);
    }
    assert(pow2(5) == 32 && pow2(6) == 64) by {
        lemma2_to64();
    }
    bitseq::lemma_take_bits(w.leading, 5, second);
    bitseq::lemma_take_bits(field, 6, value + rest);
    bitseq::lemma_take_bits(kept, w.width(), rest);
}

/// An XOR is read back from what was written for it, and leaves the same window.
proof fn lemma_take_xor(window: Option<Window>, xor: u64, rest: Seq<bool>)
    requires
        window matches Some(window) ==> window.wf(),
    ensures
        take_xor(window, xor_bits(window, xor) + rest) == Some(
            ((xor, window_after(window, xor)), rest),
        ),
        window_after(window, xor) matches Some(window) ==> window.wf(),
{
    if xor == 0 {
        bitseq::lemma_take_bit(false, rest);
    } else if reusable(window, xor) {
        lemma_take_reused(window->Some_0, xor, rest);
    } else {
        let tail = fresh_bits(xor) + rest;
        bitseq::lemma_join(seq![true], seq![true] + fresh_bits(xor), rest);
        bitseq::lemma_join(seq![true], fresh_bits(xor), rest);
        bitseq::lemma_take_bit(true, seq![true] + tail);
        bitseq::lemma_take_bit(true, tail);
        lemma_take_fresh(xor, rest);
        lemma_window_for(xor);
    }
}

/// One point is read back from what was written for it, and the others after it.
proof fn lemma_take_point(
    times: Dod,
    previous: u64,
    window: Option<Window>,
    n: nat,
    point: Point,
    tail: Seq<bool>,
)
    requires
        window matches Some(window) ==> window.wf(),
    ensures
        ({
            let xor = point.value ^ previous;
            let s = dod::dod_bits(times.change(point.timestamp)) + (xor_bits(window, xor) + tail);
            take_points(times, previous, window, n + 1, s) == (match take_points(
                times.after(point.timestamp),
                point.value,
                window_after(window, xor),
                n,
                tail,
            ) {
                None => None,
                Some((points, rest)) => Some((seq![point] + points, rest)),
            })
        }),
{
    let value = point.value;
    let xor = value ^ previous;
    let after = xor_bits(window, xor) + tail;
    dod::lemma_take_next(times, point.timestamp, after);
    lemma_take_xor(window, xor, tail);
    assert((value ^ previous) ^ previous == value) by (bit_vector);
    assert(times.take(dod::dod_bits(times.change(point.timestamp)) + after) == Some(
        (point.timestamp, after),
    ));
    assert(take_xor(window, after) == Some(((xor, window_after(window, xor)), tail)));
    assert(xor ^ previous == value);
}

/// A run of points is read back from what was written for it.
proof fn lemma_take_points(
    times: Dod,
    previous: u64,
    window: Option<Window>,
    points: Seq<Point>,
    rest: Seq<bool>,
)
    requires
        window matches Some(window) ==> window.wf(),
    ensures
        take_points(
            times,
            previous,
            window,
            points.len(),
            point_bits(times, previous, window, points) + rest,
        ) == Some((points, rest)),
    decreases points.len(),
{
    let s = point_bits(times, previous, window, points) + rest;
    if points.len() == 0 {
        assert(s =~= rest);
        assert(points =~= Seq::<Point>::empty());
    } else {
        let point = points[0];
        let xor = point.value ^ previous;
        let next = times.after(point.timestamp);
        let time = dod::dod_bits(times.change(point.timestamp));
        let others = point_bits(next, point.value, window_after(window, xor), points.skip(1));
        let tail = others + rest;
        let after = xor_bits(window, xor) + tail;
        assert(s == time + after) by {
            bitseq::lemma_join(time, xor_bits(window, xor) + others, rest);
            bitseq::lemma_join(xor_bits(window, xor), others, rest);
        }
        lemma_take_point(times, previous, window, (points.len() - 1) as nat, point, tail);
        lemma_take_xor(window, xor, tail);
        lemma_take_points(next, point.value, window_after(window, xor), points.skip(1), rest);
        assert(seq![point] + points.skip(1) =~= points);
    }
}

/// The points of a block are read back from its stream, whatever follows it.
pub proof fn lemma_roundtrip(points: Seq<Point>, rest: Seq<bool>)
    requires
        points.len() <= u32::MAX,
    ensures
        taken(stream(points) + rest) == Some((points, rest)),
{
    let s = stream(points) + rest;
    let count = points.len() as u64;
    if points.len() == 0 {
        bitseq::lemma_take_varint(count, rest);
        assert(points =~= Seq::<Point>::empty());
    } else {
        let first = points[0];
        let times = Dod::start(first.timestamp);
        let third = point_bits(times, first.value, None, points.skip(1)) + rest;
        let second = bitseq::bits_of(first.value as nat, 64) + third;
        let tail = bitseq::varint(bitseq::zigzag_of(first.timestamp) as nat) + second;
        assert(s =~= bitseq::varint(count as nat) + tail);
        bitseq::lemma_take_varint(count, tail);
        bitseq::lemma_take_signed(first.timestamp, second);
        lemma2_to64_rest();
        bitseq::lemma_take_bits(first.value, 64, third);
        lemma_take_points(times, first.value, None, points.skip(1), rest);
        assert(seq![first] + points.skip(1) =~= points);
    }
}

/// Appends an XOR, and moves on the window.
fn write_xor(w: &mut BitWriter, window: &mut Option<Window>, xor: u64)
    requires
        old(w).wf(),
        *old(window) matches Some(window) ==> window.wf(),
    ensures
        final(w).wf(),
        final(w)@ == old(w)@ + xor_bits(*old(window), xor),
        *final(window) == window_after(*old(window), xor),
        *final(window) matches Some(window) ==> window.wf(),
{
    if xor == 0 {
        w.write_bit(false);
        assert(w@ =~= old(w)@ + seq![false]);
        return ;
    }
    let leading: u64 = xor.leading_zeros() as u64;
    let trailing: u64 = xor.trailing_zeros() as u64;
    proof {
        lemma_window_for(xor);
    }
    w.write_bit(true);
    if let Some(kept) = *window {
        if leading >= kept.leading && trailing >= kept.trailing {
            w.write_bit(false);
            let width: u64 = 64 - kept.leading - kept.trailing;
            w.write_bits(xor >> kept.trailing, width as u32);
            assert(w@ =~= old(w)@ + xor_bits(*old(window), xor));
            return ;
        }
    }
    let leading: u64 = if leading < 31 { leading } else { 31 };
    let width: u64 = 64 - leading - trailing;
    w.write_bit(true);
    w.write_bits(leading, 5);
    w.write_bits(width % 64, 6);
    w.write_bits(xor >> trailing, width as u32);
    *window = Some(Window { leading, trailing });
    assert(w@ =~= old(w)@ + xor_bits(*old(window), xor));
}

/// Reads an XOR, and moves on the window.
fn read_xor(r: &mut BitReader, window: &mut Option<Window>) -> (result: Result<u64, Error>)
    requires
        old(r).wf(),
        *old(window) matches Some(window) ==> window.wf(),
    ensures
        final(r).wf(),
        match take_xor(*old(window), old(r)@) {
            None => result == Err::<u64, Error>(Error::MalformedBlock),
            Some(((xor, next), rest)) => {
                &&& result == Ok::<u64, Error>(xor)
                &&& *final(window) == next
                &&& final(r)@ == rest
            },
        },
        *final(window) matches Some(window) ==> window.wf(),
{
    if !r.read_bit()? {
        return Ok(0);
    }
    if !r.read_bit()? {
        return match *window {
            None => Err(Error::MalformedBlock),
            Some(kept) => {
                let width: u64 = 64 - kept.leading - kept.trailing;
                let bits: u64 = r.read_bits(width as u32)?;
                Ok(bits << kept.trailing)
            },
        };
    }
    let leading: u64 = r.read_bits(5)?;
    let field: u64 = r.read_bits(6)?;
    let width: u64 = if field == 0 { 64 } else { field };
    proof {
        lemma2_to64();
    }
    if leading + width > 64 {
        return Err(Error::MalformedBlock);
    }
    let trailing: u64 = 64 - leading - width;
    let bits: u64 = r.read_bits(width as u32)?;
    *window = Some(Window { leading, trailing });
    Ok(bits << trailing)
}

impl Codec for Gorilla {
    open spec fn tag_of(&self, points: Seq<Point>) -> u8 {
        TAG_GORILLA
    }

    open spec fn stream_of(&self, points: Seq<Point>) -> Seq<bool> {
        stream(points)
    }

    open spec fn called(&self) -> Seq<char> {
        "gorilla"@
    }

    fn name(&self) -> &'static str {
        "gorilla"
    }

    fn encode(&self, points: &[Point]) -> Result<Vec<u8>, Error> {
        codec::check_count(points.len())?;
        let mut w = BitWriter::with_capacity(points.len());
        w.write_varint(points.len() as u64);
        if points.len() > 0 {
            let first: Point = points[0];
            w.write_varint(crate::bits::zigzag(first.timestamp));
            w.write_bits(first.value, 64);
            let mut times = Dod::new(first.timestamp);
            let mut previous: u64 = first.value;
            let mut window: Option<Window> = None;
            let mut i: usize = 1;
            assert(w@ + point_bits(times, previous, window, points@.skip(1)) =~= stream(points@));
            while i < points.len()
                invariant
                    1 <= i <= points.len(),
                    w.wf(),
                    window matches Some(window) ==> window.wf(),
                    w@ + point_bits(times, previous, window, points@.skip(i as int)) == stream(
                        points@,
                    ),
                decreases points.len() - i,
            {
                let point: Point = points[i];
                let ghost before = w@;
                let ghost tail = points@.skip(i as int);
                let ghost state = (times, previous, window);
                times.write(&mut w, point.timestamp);
                write_xor(&mut w, &mut window, point.value ^ previous);
                previous = point.value;
                i = i + 1;
                assert(tail.skip(1) =~= points@.skip(i as int));
                assert(w@ + point_bits(times, previous, window, points@.skip(i as int)) =~= before
                    + point_bits(state.0, state.1, state.2, tail));
            }
            assert(points@.skip(i as int).len() == 0);
            assert(w@ =~= stream(points@));
        }
        assert(w@ =~= stream(points@));
        let block: Vec<u8> = codec::seal(TAG_GORILLA, w);
        proof {
            codec::lemma_gorilla_lossless(points@, block@);
        }
        Ok(block)
    }
}

/// The points that the body of a Gorilla block stands for.
pub fn decode(body: &[u8]) -> (result: Result<Vec<Point>, Error>)
    ensures
        codec::decodes(parsed(bitseq::unpack(body@)), result),
{
    let mut r = BitReader::new(body);
    let count: u64 = r.read_varint()?;
    let mut points: Vec<Point> = Vec::new();
    if count == 0 {
        assert(points@ =~= Seq::<Point>::empty());
        return Ok(points);
    }
    let timestamp: i64 = r.read_signed()?;
    let value: u64 = r.read_bits(64)?;
    points.push(Point::new(timestamp, value));
    let mut times = Dod::new(timestamp);
    let mut previous: u64 = value;
    let mut window: Option<Window> = None;
    let mut left: u64 = count - 1;
    let ghost goal = parsed(bitseq::unpack(body@));
    assert(goal == match take_points(times, previous, window, left as nat, r@) {
        None => None,
        Some((more, rest)) => Some(points@ + more),
    }) by {
        assert(points@ =~= seq![Point { timestamp, value }]);
    }
    while left > 0
        invariant
            goal == parsed(bitseq::unpack(body@)),
            r.wf(),
            window matches Some(window) ==> window.wf(),
            goal == (match take_points(times, previous, window, left as nat, r@) {
                None => None,
                Some((more, rest)) => Some(points@ + more),
            }),
        decreases left,
    {
        let ghost before = points@;
        let timestamp: i64 = times.read(&mut r)?;
        let xor: u64 = read_xor(&mut r, &mut window)?;
        previous = xor ^ previous;
        points.push(Point::new(timestamp, previous));
        left = left - 1;
        assert(points@ =~= before + seq![Point { timestamp, value: previous }]);
        proof {
            if let Some((more, rest)) = take_points(times, previous, window, left as nat, r@) {
                assert(points@ + more =~= before + (seq![
                    Point { timestamp, value: previous },
                ] + more));
            }
        }
    }
    assert(points@ + Seq::<Point>::empty() =~= points@);
    Ok(points)
}

/// An XOR taken off the front of a stream is taken off the front of any longer one alike.
proof fn lemma_extend_xor(window: Option<Window>, s: Seq<bool>, more: Seq<bool>)
    ensures
        take_xor(window, s) matches Some((taken, rest)) ==> take_xor(window, s + more) == Some(
            (taken, rest + more),
        ),
{
    bitseq::lemma_extend_bits(s, 0, more);
    if let Some((stored, rest)) = bitseq::take_bit(s) {
        bitseq::lemma_extend_bits(rest, 0, more);
        if let Some((fresh, rest)) = bitseq::take_bit(rest) {
            if let Some(w) = window {
                bitseq::lemma_extend_bits(rest, w.width(), more);
            }
            bitseq::lemma_extend_bits(rest, 5, more);
            if let Some((leading, rest)) = bitseq::take_bits(rest, 5) {
                bitseq::lemma_extend_bits(rest, 6, more);
                if let Some((field, rest)) = bitseq::take_bits(rest, 6) {
                    let width = if field == 0 { 64 } else { field as int };
                    bitseq::lemma_extend_bits(rest, width as nat, more);
                }
            }
        }
    }
}

/// Points taken off the front of a stream are taken off the front of any longer one alike, and
/// are as many as were asked for.
proof fn lemma_extend_points(
    times: Dod,
    previous: u64,
    window: Option<Window>,
    n: nat,
    s: Seq<bool>,
    more: Seq<bool>,
)
    ensures
        take_points(times, previous, window, n, s) matches Some((points, rest)) ==> {
            &&& take_points(times, previous, window, n, s + more) == Some((points, rest + more))
            &&& points.len() == n
        },
    decreases n,
{
    if n > 0 {
        dod::lemma_extend_next(times, s, more);
        if let Some((timestamp, rest)) = times.take(s) {
            lemma_extend_xor(window, rest, more);
            if let Some(((xor, window), rest)) = take_xor(window, rest) {
                lemma_extend_points(
                    times.after(timestamp),
                    xor ^ previous,
                    window,
                    (n - 1) as nat,
                    rest,
                    more,
                );
            }
        }
    }
}

/// The point count says where a stream ends: what follows it changes nothing, and it stands for
/// as many points as it says.
pub proof fn lemma_count(s: Seq<bool>, more: Seq<bool>)
    ensures
        taken(s) matches Some((points, rest)) ==> {
            &&& taken(s + more) == Some((points, rest + more))
            &&& bitseq::take_varint(s) matches Some((count, _)) && count == points.len()
        },
{
    bitseq::lemma_extend_varint(s, more);
    if let Some((count, rest)) = bitseq::take_varint(s) {
        bitseq::lemma_extend_varint(rest, more);
        if let Some((timestamp, rest)) = bitseq::take_signed(rest) {
            bitseq::lemma_extend_bits(rest, 64, more);
            if let Some((value, rest)) = bitseq::take_bits(rest, 64) {
                if count > 0 {
                    lemma_extend_points(
                        Dod::start(timestamp),
                        value,
                        None,
                        (count - 1) as nat,
                        rest,
                        more,
                    );
                }
            }
        }
    }
}

} // verus!
