# tscodec

Lossless block codecs for time series of sensor readings, verified with Verus.

A block is one byte of tag followed by a big-endian bit stream, zero-padded to whole bytes.

| tag | codec | what it does |
|---|---|---|
| `0x00` | `Gorilla` | XORs each value with the one before and stores the bits that differ |
| `0x01` | `Decimal` | scales every value to an integer, at one power of ten for the block |
| `0x02` | `Chimp` | as `Gorilla`, with the leading zeros rounded down to one of eight counts |
| `0x03` | `Chimp128` | as `Chimp`, with any of the last 128 values to XOR with |
| `0x04` | `Elf` | `Chimp` over values whose low bits are erased, to be put back by rounding |
| `0x05` | `Alp` | scales what scales, patches what does not, and chooses the power of ten by cost |
| `0x06` | `Packed` | as `Alp`, with the integers bitpacked in vectors of 1024 |

`codec::decode` reads a block whichever codec wrote it. Its specification, `codec::decoded`, and
those of the encoders are functions on sequences of bits; that decoding undoes encoding, for all
points and all bit patterns, is part of the contract of `Codec::encode`. That bytes after a block
change nothing, and that a block as written does not decode with bytes missing from its end, are
theorems beside it.

## Layout

- `src/bitseq.rs`: bit sequences, varints and zigzag as mathematics
- `src/bits.rs`: the bit writer and the bit reader
- `src/binary64.rs`: IEEE-754 binary64 numbers as exact integers, and rounding to nearest
- `src/codec/dod.rs`: delta-of-delta
- `src/codec/gorilla.rs`, `decimal.rs`, `chimp.rs`, `chimp128.rs`, `elf.rs`, `alp.rs`,
  `packed.rs`: the codecs
- `src/codec/mod.rs`: blocks, dispatch by tag, and the theorems that span the codecs
- `app/lib.rs`: readings as floating-point numbers in front of the codecs

Values are held as bit patterns throughout, and scaling works on them in integer arithmetic that
is proved to round as binary64 multiplication and division do.
