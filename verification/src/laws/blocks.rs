//! Blocks: which tag stands for which codec, and what is an error.

use crate::bitseq;
use crate::codec;
use crate::codec::alp;
use crate::codec::alp::Alp;
use crate::codec::chimp;
use crate::codec::chimp::Chimp;
use crate::codec::chimp128;
use crate::codec::chimp128::Chimp128;
use crate::codec::decimal;
use crate::codec::decimal::Decimal;
use crate::codec::elf;
use crate::codec::elf::Elf;
use crate::codec::gorilla;
use crate::codec::gorilla::Gorilla;
use crate::codec::packed;
use crate::codec::packed::Packed;
use crate::codec::Codec;
use crate::error::Error;
use crate::point::Point;
use vstd::prelude::*;

verus! {

/// The points that a stream stands for under a tag.
pub open spec fn under(tag: u8, stream: Seq<bool>) -> Option<Seq<Point>> {
    match tag {
        0 => gorilla::parsed(stream),
        1 => decimal::parsed(stream),
        2 => chimp::parsed(stream),
        3 => chimp128::parsed(stream),
        4 => elf::parsed(stream),
        5 => alp::parsed(stream),
        _ => packed::parsed(stream),
    }
}

/// A block without a tag is malformed, one with a tag from 7 up is of no known codec, and one with
/// a tag from 0 to 6 is what its stream stands for under that tag, or malformed if that is nothing.
pub proof fn law_decoded(tag: u8, bytes: Seq<u8>)
    ensures
        codec::decoded(Seq::empty()) == Err::<Seq<Point>, Error>(Error::MalformedBlock),
        tag > 6 ==> codec::decoded(seq![tag] + bytes) == Err::<Seq<Point>, Error>(
            Error::UnknownCodec(tag),
        ),
        tag <= 6 ==> codec::decoded(seq![tag] + bytes) == (match under(
            tag,
            bitseq::unpack(bytes),
        ) {
            Some(points) => Ok::<Seq<Point>, Error>(points),
            None => Err(Error::MalformedBlock),
        }),
{
    assert((seq![tag] + bytes).skip(1) =~= bytes);
}

/// What is read off the front of a stream is what the stream stands for, whatever is left over.
pub proof fn law_parsed(s: Seq<bool>)
    ensures
        gorilla::taken(s) is None <==> gorilla::parsed(s) is None,
        gorilla::taken(s) matches Some((points, _)) ==> gorilla::parsed(s) == Some(points),
        decimal::taken(s) is None <==> decimal::parsed(s) is None,
        decimal::taken(s) matches Some((points, _)) ==> decimal::parsed(s) == Some(points),
        chimp::taken(s) is None <==> chimp::parsed(s) is None,
        chimp::taken(s) matches Some((points, _)) ==> chimp::parsed(s) == Some(points),
        chimp128::taken(s) is None <==> chimp128::parsed(s) is None,
        chimp128::taken(s) matches Some((points, _)) ==> chimp128::parsed(s) == Some(points),
        elf::taken(s) is None <==> elf::parsed(s) is None,
        elf::taken(s) matches Some((points, _)) ==> elf::parsed(s) == Some(points),
        alp::taken(s) is None <==> alp::parsed(s) is None,
        alp::taken(s) matches Some((points, _)) ==> alp::parsed(s) == Some(points),
        packed::taken(s) is None <==> packed::parsed(s) is None,
        packed::taken(s) matches Some((points, _)) ==> packed::parsed(s) == Some(points),
{
}

/// What a decoder hands back: exactly the points that there are, and where there are none the
/// error of a malformed block and no other. A reader hands back what it took, and is left with
/// what follows.
pub proof fn law_handed_back(
    points: Seq<Point>,
    result: Result<Vec<Point>, Error>,
    v: u64,
    read: Result<u64, Error>,
    rest: Seq<bool>,
    left: Seq<bool>,
)
    ensures
        codec::decodes(None, result) <==> result == Err::<Vec<Point>, Error>(Error::MalformedBlock),
        codec::decodes(Some(points), result) <==> (result matches Ok(read) && read@ == points),
        crate::bits::reads(None, read, left) <==> read == Err::<u64, Error>(Error::MalformedBlock),
        crate::bits::reads(Some((v, rest)), read, left) <==> (read == Ok::<u64, Error>(v) && left
            == rest),
{
}

/// What the codecs are called.
pub proof fn law_names()
    ensures
        Gorilla.called() == seq!['g', 'o', 'r', 'i', 'l', 'l', 'a'],
        Decimal.called() == seq!['d', 'e', 'c', 'i', 'm', 'a', 'l'],
        Chimp.called() == seq!['c', 'h', 'i', 'm', 'p'],
        Chimp128.called() == seq!['c', 'h', 'i', 'm', 'p', '1', '2', '8'],
        Elf.called() == seq!['e', 'l', 'f'],
        Alp.called() == seq!['a', 'l', 'p'],
        Packed.called() == seq!['p', 'a', 'c', 'k', 'e', 'd'],
{
    reveal_strlit("gorilla");
    reveal_strlit("decimal");
    reveal_strlit("chimp");
    reveal_strlit("chimp128");
    reveal_strlit("elf");
    reveal_strlit("alp");
    reveal_strlit("packed");
    assert(Gorilla.called() =~= seq!['g', 'o', 'r', 'i', 'l', 'l', 'a']);
    assert(Decimal.called() =~= seq!['d', 'e', 'c', 'i', 'm', 'a', 'l']);
    assert(Chimp.called() =~= seq!['c', 'h', 'i', 'm', 'p']);
    assert(Chimp128.called() =~= seq!['c', 'h', 'i', 'm', 'p', '1', '2', '8']);
    assert(Elf.called() =~= seq!['e', 'l', 'f']);
    assert(Alp.called() =~= seq!['a', 'l', 'p']);
    assert(Packed.called() =~= seq!['p', 'a', 'c', 'k', 'e', 'd']);
}

} // verus!
