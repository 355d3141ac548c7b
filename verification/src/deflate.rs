//! The DEFLATE decoder and its zlib wrapper.
//!
//! The format is stated as spec functions over the bit stream of a buffer: a
//! position in the stream and the output so far go in, the position after the
//! construct and the output after it come out. The decoder is proved to
//! compute those functions.

use vstd::prelude::*;
use vstd::arithmetic::power2::{pow2, lemma2_to64, lemma_pow2_strictly_increases};
use crate::error::Error;
use crate::bit_reader::{
    BitReader,
    ReadBits,
    bit_at,
    bit_len,
    bits_to_boundary,
    number_bits,
    lemma_number_bits_bound,
    lemma_number_bits_one,
    lemma_bit_of_bound,
};
use crate::huffman::{HuffmanCode, generate_codes, decode, lemma_decode_from, MAX_CODE_LENGTH};

verus! {

/// The cap on the output of `rfc1951` and `rfc1950`.
pub const DEFAULT_OUTPUT_LIMIT: usize = 0x4000_0000;

/// The output so far and the position in the bit stream, or the failure.
pub type Step = Result<(Seq<u8>, nat), Error>;

/// The three block types.
#[derive(Debug, Clone, Copy, PartialEq, Eq, Structural)]
pub enum EncodingType {
    NoCompression,
    FixedHuffman,
    DynamicHuffman,
}

impl EncodingType {
    /// The block type that the two `BTYPE` bits, read as a number, stand for.
    pub open spec fn spec_from(data: nat) -> Option<EncodingType> {
        if data == 0 {
            Some(EncodingType::NoCompression)
        } else if data == 1 {
            Some(EncodingType::FixedHuffman)
        } else if data == 2 {
            Some(EncodingType::DynamicHuffman)
        } else {
            None
        }
    }

    /// The block type that the two `BTYPE` bits, read as a number, stand for;
    /// `None` for the reserved value 3 and for anything larger.
    pub fn from(data: u64) -> (r: Option<EncodingType>)
        ensures
            r == Self::spec_from(data as nat),
    {
        if data == 0 {
            Some(EncodingType::NoCompression)
        } else if data == 1 {
            Some(EncodingType::FixedHuffman)
        } else if data == 2 {
            Some(EncodingType::DynamicHuffman)
        } else {
            None
        }
    }
}

/// The code lengths of the fixed literal/length code: 8 bits for 0 to 143, 9
/// for 144 to 255, 7 for 256 to 279, 8 for 280 to 287.
pub open spec fn fixed_literal_lengths() -> Seq<u8> {
    Seq::new(
        288,
        |i: int|
            if i < 144 {
                8u8
            } else if i < 256 {
                9u8
            } else if i < 280 {
                7u8
            } else {
                8u8
            },
    )
}

/// The code lengths of the fixed distance code: 5 bits each.
pub open spec fn fixed_distance_lengths() -> Seq<u8> {
    Seq::new(32, |i: int| 5u8)
}

/// The table of the fixed distance code.
pub fn generate_fixed_distance_code() -> (r: HuffmanCode)
    ensures
        r@ == fixed_distance_lengths(),
{
    let mut lengths: Vec<u8> = Vec::new();
    let mut i: usize = 0;
    while i < 32
        invariant
            i <= 32,
            lengths@.len() == i,
            forall|k: int| 0 <= k < i ==> #[trigger] lengths@[k] == 5,
        decreases 32 - i,
    {
        lengths.push(5);
        i = i + 1;
    }
    assert(lengths@ =~= fixed_distance_lengths());
    generate_codes(lengths.as_slice())
}

/// The table of the fixed literal/length code.
pub fn generate_fixed_huffman() -> (r: HuffmanCode)
    ensures
        r@ == fixed_literal_lengths(),
{
    let mut lengths: Vec<u8> = Vec::new();
    let mut i: usize = 0;
    while i < 288
        invariant
            i <= 288,
            lengths@.len() == i,
            forall|k: int| 0 <= k < i ==> #[trigger] lengths@[k] == fixed_literal_lengths()[k],
        decreases 288 - i,
    {
        let length: u8 = if i < 144 {
            8
        } else if i < 256 {
            9
        } else if i < 280 {
            7
        } else {
            8
        };
        lengths.push(length);
        i = i + 1;
    }
    assert(lengths@ =~= fixed_literal_lengths());
    generate_codes(lengths.as_slice())
}

/// Reading `n` bits as a number at `pos`: the number and the position after
/// it, or `UnexpectedEof`.
pub open spec fn number_at(bytes: Seq<u8>, pos: nat, n: nat) -> Result<(nat, nat), Error> {
    if pos + n > bit_len(bytes) {
        Err(Error::UnexpectedEof)
    } else {
        Ok((number_bits(bytes, pos as int, n), pos + n))
    }
}

/// The slot of the code-length alphabet that the `i`-th length of a dynamic
/// header is for.
pub open spec fn code_length_order(i: int) -> int {
    seq![16int, 17, 18, 0, 8, 7, 9, 6, 10, 5, 11, 4, 12, 3, 13, 2, 14, 1, 15][i]
}

/// The slot of the code-length alphabet that the `i`-th length of a dynamic
/// header is for.
fn code_length_slot(i: usize) -> (r: usize)
    requires
        i < 19,
    ensures
        r == code_length_order(i as int),
        r < 19,
{
    let order: [usize; 19] = [16, 17, 18, 0, 8, 7, 9, 6, 10, 5, 11, 4, 12, 3, 13, 2, 14, 1, 15];
    order[i]
}

/// The lengths of the code-length code after `count` of the 3-bit fields at
/// `pos` were read into `acc`.
pub open spec fn code_lengths_from(bytes: Seq<u8>, pos: nat, count: nat, acc: Seq<u8>) -> Seq<u8>
    decreases count,
{
    if count == 0 {
        acc
    } else {
        let before = code_lengths_from(bytes, pos, (count - 1) as nat, acc);
        before.update(
            code_length_order(count - 1),
            number_bits(bytes, pos + 3 * (count - 1), 3) as u8,
        )
    }
}

/// The 19 lengths of the code-length code, of which the header at `pos` gives
/// the first `count` in the order of `code_length_order`; the others are 0.
pub open spec fn spec_code_lengths(bytes: Seq<u8>, pos: nat, count: nat) -> Result<
    (Seq<u8>, nat),
    Error,
> {
    if pos + 3 * count > bit_len(bytes) {
        Err(Error::UnexpectedEof)
    } else {
        Ok((code_lengths_from(bytes, pos, count, Seq::new(19, |i: int| 0u8)), pos + 3 * count))
    }
}

/// `acc` followed by `count` copies of `value`.
pub open spec fn with_run(acc: Seq<u8>, value: u8, count: nat) -> Seq<u8> {
    acc + Seq::new(count, |i: int| value)
}

/// The last length of `acc`; 0 where there is none.
pub open spec fn previous_length(acc: Seq<u8>) -> u8 {
    if acc.len() == 0 {
        0
    } else {
        acc.last()
    }
}

/// One symbol of the code lengths that follow a dynamic header, read at
/// `pos` with the code-length code `cl`, and what it adds to `acc`: symbols 0
/// to 15 are lengths, 16 repeats the previous length 3 to 6 times, 17 gives
/// 3 to 10 zeros, 18 gives 11 to 138 zeros. `InvalidCode` where a run passes
/// `total`.
pub open spec fn spec_length_step(
    cl: Seq<u8>,
    bytes: Seq<u8>,
    pos: nat,
    total: nat,
    acc: Seq<u8>,
) -> Result<(Seq<u8>, nat), Error> {
    match decode(cl, bytes, pos) {
        Err(e) => Err(e),
        Ok((symbol, n)) => {
            if symbol <= 15 {
                Ok((acc.push(symbol as u8), pos + n))
            } else if symbol > 18 {
                Err(Error::InvalidCode)
            } else {
                let extra: nat = if symbol == 16 {
                    2
                } else if symbol == 17 {
                    3
                } else {
                    7
                };
                let base: nat = if symbol == 18 {
                    11
                } else {
                    3
                };
                let value: u8 = if symbol == 16 {
                    previous_length(acc)
                } else {
                    0
                };
                match number_at(bytes, pos + n, extra) {
                    Err(e) => Err(e),
                    Ok((more, after)) => {
                        if acc.len() + base + more > total {
                            Err(Error::InvalidCode)
                        } else {
                            Ok((with_run(acc, value, base + more), after))
                        }
                    },
                }
            }
        },
    }
}

/// The `total` code lengths that follow a dynamic header, coded with the
/// code-length code `cl` and continued from `acc`.
pub open spec fn spec_compressed_lengths(
    cl: Seq<u8>,
    bytes: Seq<u8>,
    pos: nat,
    total: nat,
    acc: Seq<u8>,
) -> Result<(Seq<u8>, nat), Error>
    decreases total - acc.len(),
    via spec_compressed_lengths_decreases
{
    if acc.len() >= total {
        Ok((acc, pos))
    } else {
        match spec_length_step(cl, bytes, pos, total, acc) {
            Err(e) => Err(e),
            Ok((grown, after)) => spec_compressed_lengths(cl, bytes, after, total, grown),
        }
    }
}

#[via_fn]
proof fn spec_compressed_lengths_decreases(
    cl: Seq<u8>,
    bytes: Seq<u8>,
    pos: nat,
    total: nat,
    acc: Seq<u8>,
) {
    lemma_length_step(cl, bytes, pos, total, acc);
}

/// One symbol of code lengths adds at least one length, stays within
/// `total`, keeps every length at 15 or below, and is read forward and within
/// the stream.
pub proof fn lemma_length_step(cl: Seq<u8>, bytes: Seq<u8>, pos: nat, total: nat, acc: Seq<u8>)
    ensures
        spec_length_step(cl, bytes, pos, total, acc) matches Ok((grown, after)) ==> acc.len()
            < grown.len() && (acc.len() < total ==> grown.len() <= total) && pos < after
            <= bit_len(bytes) && ((forall|i: int| 0 <= i < acc.len() ==> #[trigger] acc[i] <= 15)
            ==> (forall|i: int| 0 <= i < grown.len() ==> #[trigger] grown[i] <= 15)),
{
    lemma_decode_from(cl, bytes, pos, 1);
}

/// The number of extra bits and the base of the match length that a
/// length symbol (257 to 285) stands for.
pub open spec fn length_code(symbol: nat) -> (nat, nat) {
    if symbol < 265 {
        (0, (symbol - 254) as nat)
    } else if symbol < 269 {
        (1, (11 + 2 * (symbol - 265)) as nat)
    } else if symbol < 273 {
        (2, (19 + 4 * (symbol - 269)) as nat)
    } else if symbol < 277 {
        (3, (35 + 8 * (symbol - 273)) as nat)
    } else if symbol < 281 {
        (4, (67 + 16 * (symbol - 277)) as nat)
    } else if symbol < 285 {
        (5, (131 + 32 * (symbol - 281)) as nat)
    } else {
        (0, 258)
    }
}

/// The number of extra bits and the base of the distance that a distance
/// symbol (0 to 29) stands for.
pub open spec fn distance_code(symbol: nat) -> (nat, nat) {
    if symbol < 4 {
        (0, symbol + 1)
    } else {
        let extra = ((symbol - 2) / 2) as nat;
        (extra, (1 + (2 + symbol % 2) * pow2(extra)) as nat)
    }
}

/// The (length, distance) pair that follows the length symbol `symbol`, and
/// the position after it: the extra bits of the length, the distance symbol
/// from the distance code `dist`, the extra bits of the distance.
/// `InvalidCode` where either symbol is outside its range.
pub open spec fn spec_read_distance(dist: Seq<u8>, bytes: Seq<u8>, pos: nat, symbol: nat) -> Result<
    ((nat, nat), nat),
    Error,
> {
    if symbol < 257 || symbol > 285 {
        Err(Error::InvalidCode)
    } else {
        match number_at(bytes, pos, length_code(symbol).0) {
            Err(e) => Err(e),
            Ok((more, mid)) => match decode(dist, bytes, mid) {
                Err(e) => Err(e),
                Ok((d, n)) => {
                    if d > 29 {
                        Err(Error::InvalidCode)
                    } else {
                        match number_at(bytes, mid + n, distance_code(d).0) {
                            Err(e) => Err(e),
                            Ok((far, beyond)) => Ok(
                                ((length_code(symbol).1 + more, distance_code(d).1 + far), beyond),
                            ),
                        }
                    }
                },
            },
        }
    }
}

/// The output after a back-reference: `length` bytes, each the byte
/// `distance` before the end of what stands by then. The copy may run into
/// the bytes that it has itself produced.
pub open spec fn spec_copy(out: Seq<u8>, distance: nat, length: nat) -> Seq<u8>
    decreases length,
{
    if length == 0 {
        out
    } else {
        spec_copy(out.push(out[out.len() - distance]), distance, (length - 1) as nat)
    }
}

/// One symbol of a Huffman block, read at `pos`, and what it does to the
/// output: a symbol below 256 is a literal byte, 256 ends the block (the
/// flag is then set), one above is the start of a back-reference.
/// `BadDistance` where a back-reference reaches before the start of the
/// output, `OutputTooLarge` where the output would pass `limit`.
pub open spec fn spec_symbol(
    lit: Seq<u8>,
    dist: Seq<u8>,
    bytes: Seq<u8>,
    pos: nat,
    out: Seq<u8>,
    limit: nat,
) -> Result<(bool, Seq<u8>, nat), Error> {
    match decode(lit, bytes, pos) {
        Err(e) => Err(e),
        Ok((symbol, n)) => {
            if symbol < 256 {
                if out.len() + 1 > limit {
                    Err(Error::OutputTooLarge)
                } else {
                    Ok((false, out.push(symbol as u8), pos + n))
                }
            } else if symbol == 256 {
                Ok((true, out, pos + n))
            } else {
                match spec_read_distance(dist, bytes, pos + n, symbol) {
                    Err(e) => Err(e),
                    Ok(((length, distance), after)) => {
                        if distance == 0 || distance > out.len() {
                            Err(Error::BadDistance)
                        } else if out.len() + length > limit {
                            Err(Error::OutputTooLarge)
                        } else {
                            Ok((false, spec_copy(out, distance, length), after))
                        }
                    },
                }
            }
        },
    }
}

/// The symbols of one Huffman block from `pos` on, up to and with the
/// end-of-block symbol 256.
pub open spec fn spec_huffman_block(
    lit: Seq<u8>,
    dist: Seq<u8>,
    bytes: Seq<u8>,
    pos: nat,
    out: Seq<u8>,
    limit: nat,
) -> Step
    decreases bit_len(bytes) - pos,
    via spec_huffman_block_decreases
{
    match spec_symbol(lit, dist, bytes, pos, out, limit) {
        Err(e) => Err(e),
        Ok((done, grown, after)) => {
            if done {
                Ok((grown, after))
            } else {
                spec_huffman_block(lit, dist, bytes, after, grown, limit)
            }
        },
    }
}

#[via_fn]
proof fn spec_huffman_block_decreases(
    lit: Seq<u8>,
    dist: Seq<u8>,
    bytes: Seq<u8>,
    pos: nat,
    out: Seq<u8>,
    limit: nat,
) {
    lemma_symbol(lit, dist, bytes, pos, out, limit);
}

/// One symbol is read forward and within the stream, and only adds to the
/// output.
pub proof fn lemma_symbol(
    lit: Seq<u8>,
    dist: Seq<u8>,
    bytes: Seq<u8>,
    pos: nat,
    out: Seq<u8>,
    limit: nat,
)
    ensures
        spec_symbol(lit, dist, bytes, pos, out, limit) matches Ok((done, grown, after)) ==> pos
            < after <= bit_len(bytes) && out.len() <= grown.len(),
{
    lemma_decode_from(lit, bytes, pos, 1);
    if let Ok((symbol, n)) = decode(lit, bytes, pos) {
        if symbol > 256 {
            lemma_read_distance(dist, bytes, pos + n, symbol);
            if let Ok(((length, distance), after)) = spec_read_distance(
                dist,
                bytes,
                pos + n,
                symbol,
            ) {
                if !(distance == 0 || distance > out.len()) {
                    lemma_copy_len(out, distance, length);
                }
            }
        }
    }
}

/// A (length, distance) pair is read forward and within the stream; the
/// length is between 3 and 258, the distance between 1 and 32768.
pub proof fn lemma_read_distance(dist: Seq<u8>, bytes: Seq<u8>, pos: nat, symbol: nat)
    ensures
        spec_read_distance(dist, bytes, pos, symbol) matches Ok(((length, distance), after)) ==> pos
            < after <= bit_len(bytes) && 3 <= length <= 258 && 1 <= distance <= 32768,
{
    if let Ok(((length, distance), after)) = spec_read_distance(dist, bytes, pos, symbol) {
        let (lx, lb) = length_code(symbol);
        let (more, mid) = number_at(bytes, pos, lx)->Ok_0;
        lemma_number_bits_bound(bytes, pos as int, lx);
        lemma_decode_from(dist, bytes, mid, 1);
        let (d, n) = decode(dist, bytes, mid)->Ok_0;
        let (dx, db) = distance_code(d);
        lemma_number_bits_bound(bytes, (mid + n) as int, dx);
        lemma2_to64();
        assert(dx <= 13);
        assert(pow2(dx) <= 8192) by {
            if dx < 13 {
                lemma_pow2_strictly_increases(dx, 13);
            }
        }
        let w = pow2(dx);
        assert((2 + d % 2) * w <= 3 * w) by (nonlinear_arith)
            requires
                d % 2 <= 1,
                w >= 0,
        ;
        assert((2 + d % 2) * w >= 0) by (nonlinear_arith)
            requires
                d % 2 >= 0,
                w >= 0,
        ;
        if symbol == 284 {
            assert(lx == 5 && lb == 227);
            assert(more < 32);
        }
    }
}

/// A stored block from `pos` on, after its three header bits: the bits up
/// to the byte boundary are skipped, then come `LEN` and `NLEN` as 16-bit
/// numbers and `LEN` raw bytes. `LengthMismatch` where `LEN` is not the
/// complement of `NLEN`.
pub open spec fn spec_stored(bytes: Seq<u8>, pos: nat, out: Seq<u8>, limit: nat) -> Step {
    let start = pos + bits_to_boundary(pos);
    if start + 32 > bit_len(bytes) {
        Err(Error::UnexpectedEof)
    } else {
        let len = number_bits(bytes, start as int, 16);
        let nlen = number_bits(bytes, (start + 16) as int, 16);
        let first = start / 8 + 4;
        if len + nlen != 0xFFFF {
            Err(Error::LengthMismatch)
        } else if out.len() + len > limit {
            Err(Error::OutputTooLarge)
        } else if first + len > bytes.len() {
            Err(Error::UnexpectedEof)
        } else {
            Ok((out + bytes.subrange(first as int, (first + len) as int), start + 32 + 8 * len))
        }
    }
}

/// The two tables of a dynamic block, as code lengths, from the header at
/// `pos`: `HLIT`, `HDIST` and `HCLEN`, the lengths of the code-length code,
/// then the `HLIT + 257` literal/length lengths and the `HDIST + 1` distance
/// lengths as one sequence.
pub open spec fn spec_dynamic_tables(bytes: Seq<u8>, pos: nat) -> Result<
    ((Seq<u8>, Seq<u8>), nat),
    Error,
> {
    if pos + 14 > bit_len(bytes) {
        Err(Error::UnexpectedEof)
    } else {
        let hlit = number_bits(bytes, pos as int, 5) + 257;
        let hdist = number_bits(bytes, (pos + 5) as int, 5) + 1;
        let hclen = number_bits(bytes, (pos + 10) as int, 4) + 4;
        match spec_code_lengths(bytes, pos + 14, hclen) {
            Err(e) => Err(e),
            Ok((cl, mid)) => match spec_compressed_lengths(
                cl,
                bytes,
                mid,
                hlit + hdist,
                Seq::empty(),
            ) {
                Err(e) => Err(e),
                Ok((all, beyond)) => Ok(
                    ((all.subrange(0, hlit as int), all.subrange(hlit as int, all.len() as int)), beyond),
                ),
            },
        }
    }
}

/// One block from `pos` on, after its three header bits, of the type that
/// `btype` numbers.
#[verifier::opaque]
pub open spec fn spec_block(bytes: Seq<u8>, pos: nat, btype: nat, out: Seq<u8>, limit: nat) -> Step {
    match EncodingType::spec_from(btype) {
        None => Err(Error::InvalidBlock),
        Some(EncodingType::NoCompression) => spec_stored(bytes, pos, out, limit),
        Some(EncodingType::FixedHuffman) => spec_huffman_block(
            fixed_literal_lengths(),
            fixed_distance_lengths(),
            bytes,
            pos,
            out,
            limit,
        ),
        Some(EncodingType::DynamicHuffman) => match spec_dynamic_tables(bytes, pos) {
            Err(e) => Err(e),
            Ok(((lit, dist), after)) => spec_huffman_block(lit, dist, bytes, after, out, limit),
        },
    }
}

/// One block at `pos`, header and all: `BFINAL` (one bit), `BTYPE` (two
/// bits, as a number), then the block. The flag says whether `BFINAL` is set.
pub open spec fn spec_one_block(bytes: Seq<u8>, pos: nat, out: Seq<u8>, limit: nat) -> Result<
    (bool, Seq<u8>, nat),
    Error,
> {
    if pos + 3 > bit_len(bytes) {
        Err(Error::UnexpectedEof)
    } else {
        match spec_block(bytes, pos + 3, number_bits(bytes, (pos + 1) as int, 2), out, limit) {
            Err(e) => Err(e),
            Ok((grown, after)) => Ok((bit_at(bytes, pos as int) == 1, grown, after)),
        }
    }
}

/// The blocks from `pos` on, up to and with the first whose `BFINAL` bit is
/// set.
pub open spec fn spec_blocks(bytes: Seq<u8>, pos: nat, out: Seq<u8>, limit: nat) -> Step
    decreases bit_len(bytes) - pos,
    via spec_blocks_decreases
{
    match spec_one_block(bytes, pos, out, limit) {
        Err(e) => Err(e),
        Ok((last, grown, after)) => {
            if last {
                Ok((grown, after))
            } else {
                spec_blocks(bytes, after, grown, limit)
            }
        },
    }
}

#[via_fn]
proof fn spec_blocks_decreases(bytes: Seq<u8>, pos: nat, out: Seq<u8>, limit: nat) {
    lemma_one_block(bytes, pos, out, limit);
}

/// One block is read forward and within the stream.
pub proof fn lemma_one_block(bytes: Seq<u8>, pos: nat, out: Seq<u8>, limit: nat)
    ensures
        spec_one_block(bytes, pos, out, limit) matches Ok((last, grown, after)) ==> pos < after
            <= bit_len(bytes),
{
    if pos + 3 <= bit_len(bytes) {
        lemma_block_advances(
            bytes,
            pos + 3,
            number_bits(bytes, (pos + 1) as int, 2),
            out,
            limit,
        );
    }
}

/// What a raw DEFLATE stream at `pos` decompresses to, and where it ends.
pub open spec fn spec_inflate(bytes: Seq<u8>, pos: nat, limit: nat) -> Step {
    spec_blocks(bytes, pos, Seq::empty(), limit)
}

/// The code lengths after a dynamic header number `total`, each at most 15,
/// and were read forward and within the stream.
pub proof fn lemma_compressed_lengths(
    cl: Seq<u8>,
    bytes: Seq<u8>,
    pos: nat,
    total: nat,
    acc: Seq<u8>,
)
    requires
        acc.len() <= total,
        pos <= bit_len(bytes),
        forall|i: int| 0 <= i < acc.len() ==> #[trigger] acc[i] <= 15,
    ensures
        spec_compressed_lengths(cl, bytes, pos, total, acc) matches Ok((all, after)) ==> all.len()
            == total && pos <= after <= bit_len(bytes) && (forall|i: int|
            0 <= i < all.len() ==> #[trigger] all[i] <= 15),
    decreases total - acc.len(),
{
    if acc.len() < total {
        lemma_length_step(cl, bytes, pos, total, acc);
        if let Ok((grown, after)) = spec_length_step(cl, bytes, pos, total, acc) {
            lemma_compressed_lengths(cl, bytes, after, total, grown);
        }
    }
}

/// A Huffman block is read forward and within the stream, and only adds to
/// the output.
pub proof fn lemma_huffman_block_advances(
    lit: Seq<u8>,
    dist: Seq<u8>,
    bytes: Seq<u8>,
    pos: nat,
    out: Seq<u8>,
    limit: nat,
)
    ensures
        spec_huffman_block(lit, dist, bytes, pos, out, limit) matches Ok((grown, after)) ==> pos
            < after <= bit_len(bytes) && out.len() <= grown.len(),
    decreases bit_len(bytes) - pos,
{
    lemma_symbol(lit, dist, bytes, pos, out, limit);
    if let Ok((done, grown, after)) = spec_symbol(lit, dist, bytes, pos, out, limit) {
        if !done {
            lemma_huffman_block_advances(lit, dist, bytes, after, grown, limit);
        }
    }
}

/// A back-reference keeps what stands and adds `length` bytes, each of which
/// is the byte `distance` places before it.
pub proof fn lemma_copy_len(out: Seq<u8>, distance: nat, length: nat)
    requires
        1 <= distance <= out.len(),
    ensures
        spec_copy(out, distance, length).len() == out.len() + length,
        spec_copy(out, distance, length).subrange(0, out.len() as int) == out,
        forall|i: int|
            out.len() <= i < out.len() + length ==> #[trigger] spec_copy(out, distance, length)[i]
                == spec_copy(out, distance, length)[i - distance],
    decreases length,
{
    if length > 0 {
        let next = out.push(out[out.len() - distance]);
        let done = spec_copy(out, distance, length);
        lemma_copy_len(next, distance, (length - 1) as nat);
        assert(done == spec_copy(next, distance, (length - 1) as nat));
        assert(done.subrange(0, out.len() as int) =~= next.subrange(0, next.len() as int).subrange(
            0,
            out.len() as int,
        ));
        assert(next.subrange(0, out.len() as int) =~= out);
        assert forall|i: int| out.len() <= i < out.len() + length implies #[trigger] done[i]
            == done[i - distance] by {
            if i == out.len() {
                assert(done[i] == done.subrange(0, next.len() as int)[i]);
                assert(done[i - distance] == done.subrange(0, next.len() as int)[i - distance]);
            }
        }
    } else {
        assert(out.subrange(0, out.len() as int) =~= out);
    }
}

/// A back-reference of distance 1 repeats the last byte: it appends as
/// many copies of it as its length says.
pub proof fn lemma_copy_repeats_last_byte(out: Seq<u8>, length: nat)
    requires
        out.len() >= 1,
    ensures
        spec_copy(out, 1, length) == out + Seq::new(length, |i: int| out.last()),
    decreases length,
{
    if length == 0 {
        assert(out + Seq::new(0, |i: int| out.last()) =~= out);
    } else {
        let next = out.push(out[out.len() - 1]);
        lemma_copy_repeats_last_byte(next, (length - 1) as nat);
        assert(next.last() == out.last());
        assert(next + Seq::new((length - 1) as nat, |i: int| next.last()) =~= out + Seq::new(
            length,
            |i: int| out.last(),
        ));
    }
}

/// A block is read forward and within the stream.
pub proof fn lemma_block_advances(bytes: Seq<u8>, pos: nat, btype: nat, out: Seq<u8>, limit: nat)
    requires
        pos <= bit_len(bytes),
    ensures
        spec_block(bytes, pos, btype, out, limit) matches Ok((grown, after)) ==> pos < after
            <= bit_len(bytes),
{
    reveal(spec_block);
    match EncodingType::spec_from(btype) {
        None => {},
        Some(EncodingType::NoCompression) => {},
        Some(EncodingType::FixedHuffman) => {
            lemma_huffman_block_advances(
                fixed_literal_lengths(),
                fixed_distance_lengths(),
                bytes,
                pos,
                out,
                limit,
            );
        },
        Some(EncodingType::DynamicHuffman) => {
            if let Ok(((lit, dist), after)) = spec_dynamic_tables(bytes, pos) {
                let hlit = number_bits(bytes, pos as int, 5) + 257;
                let hdist = number_bits(bytes, (pos + 5) as int, 5) + 1;
                let hclen = number_bits(bytes, (pos + 10) as int, 4) + 4;
                let (cl, mid) = spec_code_lengths(bytes, pos + 14, hclen)->Ok_0;
                lemma_compressed_lengths(cl, bytes, mid, hlit + hdist, Seq::empty());
                lemma_huffman_block_advances(lit, dist, bytes, after, out, limit);
            }
        },
    }
}

/// Reads `n` bits as a number that fits 16 bits.
fn read_small(data: &mut BitReader, n: usize) -> (r: Result<usize, Error>)
    requires
        n <= 16,
    ensures
        final(data).stream() == old(data).stream(),
        match number_at(old(data).stream(), old(data).position(), n as nat) {
            Ok((v, p)) => r == Ok::<usize, Error>(v as usize) && final(data).position() == p && v
                < pow2(n as nat) && v <= 0xFFFF,
            Err(e) => r == Err::<usize, Error>(e),
        },
{
    proof {
        lemma_number_bits_bound(data.stream(), data.position() as int, n as nat);
        lemma2_to64();
        if n < 16 {
            lemma_pow2_strictly_increases(n as nat, 16);
        }
    }
    match data.read_number(n) {
        Ok(v) => Ok(v as usize),
        Err(e) => Err(e),
    }
}

/// Reads the lengths of the code-length code of a dynamic header: `length`
/// fields of 3 bits, in the order of `code_length_order`.
pub fn read_code_lengths(data: &mut BitReader, length: usize) -> (r: Result<Vec<u8>, Error>)
    requires
        length <= 19,
    ensures
        final(data).stream() == old(data).stream(),
        match spec_code_lengths(old(data).stream(), old(data).position(), length as nat) {
            Ok((lengths, p)) => r is Ok && r->Ok_0@ == lengths && final(data).position() == p
                && lengths.len() == 19 && (forall|i: int|
                0 <= i < 19 ==> #[trigger] lengths[i] <= 7),
            Err(e) => r == Err::<Vec<u8>, Error>(e),
        },
{
    let ghost bytes = data.stream();
    let ghost pos = data.position();
    proof {
        data.lemma_position_bound();
    }
    let mut result: Vec<u8> = vec![0u8; 19];
    assert(result@ =~= Seq::new(19, |i: int| 0u8));
    let mut i: usize = 0;
    while i < length
        invariant
            i <= length <= 19,
            bytes == old(data).stream(),
            pos == old(data).position(),
            data.stream() == bytes,
            data.position() == pos + 3 * i,
            result@ == code_lengths_from(bytes, pos, i as nat, Seq::new(19, |i: int| 0u8)),
            result@.len() == 19,
            forall|k: int| 0 <= k < 19 ==> #[trigger] result@[k] <= 7,
            pos + 3 * i <= bit_len(bytes),
        decreases length - i,
    {
        let slot: usize = code_length_slot(i);
        proof {
            lemma2_to64();
        }
        let value: usize = match read_small(data, 3) {
            Ok(v) => v,
            Err(e) => {
                return Err(e);
            },
        };
        result[slot] = value as u8;
        i = i + 1;
    }
    Ok(result)
}

/// Reads one symbol of the code lengths that follow a dynamic header and
/// appends to `result` the lengths that it stands for.
fn read_length_step(data: &mut BitReader, coder: &HuffmanCode, total: usize, result: &mut Vec<u8>) -> (r:
    Result<(), Error>)
    requires
        old(result)@.len() < total,
    ensures
        final(data).stream() == old(data).stream(),
        match spec_length_step(
            coder@,
            old(data).stream(),
            old(data).position(),
            total as nat,
            old(result)@,
        ) {
            Ok((grown, p)) => r is Ok && final(result)@ == grown && final(data).position() == p,
            Err(e) => r == Err::<(), Error>(e),
        },
{
    let ghost bytes = data.stream();
    let ghost here = data.position();
    let ghost acc = result@;
    proof {
        lemma_decode_from(coder@, bytes, here, 1);
    }
    let code: usize = match coder.next_code(data) {
        Ok(c) => c,
        Err(e) => {
            return Err(e);
        },
    };
    if code <= 15 {
        result.push(code as u8);
        return Ok(());
    }
    if code > 18 {
        return Err(Error::InvalidCode);
    }
    let extra: usize = if code == 16 {
        2
    } else if code == 17 {
        3
    } else {
        7
    };
    let base: usize = if code == 18 {
        11
    } else {
        3
    };
    let value: u8 = if code == 16 && result.len() > 0 {
        result[result.len() - 1]
    } else {
        0
    };
    proof {
        lemma2_to64();
    }
    let more: usize = match read_small(data, extra) {
        Ok(v) => v,
        Err(e) => {
            return Err(e);
        },
    };
    let run: usize = base + more;
    if run > total - result.len() {
        return Err(Error::InvalidCode);
    }
    let mut k: usize = 0;
    assert(result@ =~= with_run(acc, value, 0));
    while k < run
        invariant
            k <= run,
            acc.len() + run <= total,
            result@ == with_run(acc, value, k as nat),
        decreases run - k,
    {
        result.push(value);
        k = k + 1;
        assert(result@ =~= with_run(acc, value, k as nat));
    }
    Ok(())
}

/// Reads the `total` code lengths that follow a dynamic header, coded with
/// the code-length code `coder`.
pub fn read_compressed_code_lengths(data: &mut BitReader, coder: &HuffmanCode, total: usize) -> (r:
    Result<Vec<u8>, Error>)
    ensures
        final(data).stream() == old(data).stream(),
        match spec_compressed_lengths(
            coder@,
            old(data).stream(),
            old(data).position(),
            total as nat,
            Seq::empty(),
        ) {
            Ok((lengths, p)) => r is Ok && r->Ok_0@ == lengths && final(data).position() == p
                && lengths.len() == total && (forall|i: int|
                0 <= i < lengths.len() ==> #[trigger] lengths[i] <= 15),
            Err(e) => r == Err::<Vec<u8>, Error>(e),
        },
{
    let ghost bytes = data.stream();
    let ghost pos = data.position();
    let mut result: Vec<u8> = Vec::new();
    while result.len() < total
        invariant
            bytes == old(data).stream(),
            pos == old(data).position(),
            data.stream() == bytes,
            result@.len() <= total,
            forall|i: int| 0 <= i < result@.len() ==> #[trigger] result@[i] <= 15,
            spec_compressed_lengths(coder@, bytes, pos, total as nat, Seq::empty())
                == spec_compressed_lengths(coder@, bytes, data.position(), total as nat, result@),
        decreases total - result.len(),
    {
        proof {
            lemma_length_step(coder@, bytes, data.position(), total as nat, result@);
        }
        match read_length_step(data, coder, total, &mut result) {
            Ok(()) => {},
            Err(e) => {
                return Err(e);
            },
        }
    }
    Ok(result)
}

/// Reads the header of a dynamic block and builds its two tables: the
/// literal/length code and the distance code.
pub fn read_huffman_code(data: &mut BitReader) -> (r: Result<(HuffmanCode, HuffmanCode), Error>)
    ensures
        final(data).stream() == old(data).stream(),
        match spec_dynamic_tables(old(data).stream(), old(data).position()) {
            Ok(((lit, dist), p)) => r is Ok && r->Ok_0.0@ == lit && r->Ok_0.1@ == dist
                && final(data).position() == p,
            Err(e) => r is Err && r->Err_0 == e,
        },
{
    let ghost bytes = data.stream();
    let ghost pos = data.position();
    proof {
        lemma2_to64();
    }
    let hlit: usize = match read_small(data, 5) {
        Ok(v) => v + 257,
        Err(e) => {
            return Err(e);
        },
    };
    let hdist: usize = match read_small(data, 5) {
        Ok(v) => v + 1,
        Err(e) => {
            return Err(e);
        },
    };
    let hclen: usize = match read_small(data, 4) {
        Ok(v) => v + 4,
        Err(e) => {
            return Err(e);
        },
    };
    let code_lengths = match read_code_lengths(data, hclen) {
        Ok(v) => v,
        Err(e) => {
            return Err(e);
        },
    };
    let codes = generate_codes(code_lengths.as_slice());
    let all = match read_compressed_code_lengths(data, &codes, hlit + hdist) {
        Ok(v) => v,
        Err(e) => {
            return Err(e);
        },
    };
    let literal_lengths = vstd::slice::slice_subrange(all.as_slice(), 0, hlit);
    let distance_lengths = vstd::slice::slice_subrange(all.as_slice(), hlit, all.len());
    let literal_codes = generate_codes(literal_lengths);
    let distance_codes = generate_codes(distance_lengths);
    Ok((literal_codes, distance_codes))
}

/// The number of extra bits and the base of the match length that a length
/// symbol stands for.
pub fn length_of_symbol(symbol: usize) -> (r: (usize, usize))
    requires
        257 <= symbol <= 285,
    ensures
        r.0 == length_code(symbol as nat).0,
        r.1 == length_code(symbol as nat).1,
        r.0 <= 5,
        r.1 <= 258,
{
    match symbol {
        257 => (0, 3),
        258 => (0, 4),
        259 => (0, 5),
        260 => (0, 6),
        261 => (0, 7),
        262 => (0, 8),
        263 => (0, 9),
        264 => (0, 10),
        265 => (1, 11),
        266 => (1, 13),
        267 => (1, 15),
        268 => (1, 17),
        269 => (2, 19),
        270 => (2, 23),
        271 => (2, 27),
        272 => (2, 31),
        273 => (3, 35),
        274 => (3, 43),
        275 => (3, 51),
        276 => (3, 59),
        277 => (4, 67),
        278 => (4, 83),
        279 => (4, 99),
        280 => (4, 115),
        281 => (5, 131),
        282 => (5, 163),
        283 => (5, 195),
        284 => (5, 227),
        _ => (0, 258),
    }
}

/// The table of RFC 1951 for the distance symbols, row by row.
pub proof fn lemma_distance_table()
    ensures
        distance_code(0) == (0nat, 1nat),
        distance_code(1) == (0nat, 2nat),
        distance_code(2) == (0nat, 3nat),
        distance_code(3) == (0nat, 4nat),
        distance_code(4) == (1nat, 5nat),
        distance_code(5) == (1nat, 7nat),
        distance_code(6) == (2nat, 9nat),
        distance_code(7) == (2nat, 13nat),
        distance_code(8) == (3nat, 17nat),
        distance_code(9) == (3nat, 25nat),
        distance_code(10) == (4nat, 33nat),
        distance_code(11) == (4nat, 49nat),
        distance_code(12) == (5nat, 65nat),
        distance_code(13) == (5nat, 97nat),
        distance_code(14) == (6nat, 129nat),
        distance_code(15) == (6nat, 193nat),
        distance_code(16) == (7nat, 257nat),
        distance_code(17) == (7nat, 385nat),
        distance_code(18) == (8nat, 513nat),
        distance_code(19) == (8nat, 769nat),
        distance_code(20) == (9nat, 1025nat),
        distance_code(21) == (9nat, 1537nat),
        distance_code(22) == (10nat, 2049nat),
        distance_code(23) == (10nat, 3073nat),
        distance_code(24) == (11nat, 4097nat),
        distance_code(25) == (11nat, 6145nat),
        distance_code(26) == (12nat, 8193nat),
        distance_code(27) == (12nat, 12289nat),
        distance_code(28) == (13nat, 16385nat),
        distance_code(29) == (13nat, 24577nat),
{
    lemma2_to64();
    assert(3 * pow2(1) == 6 && 3 * pow2(2) == 12 && 3 * pow2(3) == 24 && 3 * pow2(4) == 48 && 3
        * pow2(5) == 96 && 3 * pow2(6) == 192 && 3 * pow2(7) == 384 && 3 * pow2(8) == 768 && 3
        * pow2(9) == 1536 && 3 * pow2(10) == 3072 && 3 * pow2(11) == 6144 && 3 * pow2(12) == 12288
        && 3 * pow2(13) == 24576);
    assert(2 * pow2(1) == 4 && 2 * pow2(2) == 8 && 2 * pow2(3) == 16 && 2 * pow2(4) == 32 && 2
        * pow2(5) == 64 && 2 * pow2(6) == 128 && 2 * pow2(7) == 256 && 2 * pow2(8) == 512 && 2
        * pow2(9) == 1024 && 2 * pow2(10) == 2048 && 2 * pow2(11) == 4096 && 2 * pow2(12) == 8192
        && 2 * pow2(13) == 16384);
}

/// The number of extra bits and the base of the distance that a distance
/// symbol stands for.
pub fn distance_of_symbol(symbol: usize) -> (r: (usize, usize))
    requires
        symbol <= 29,
    ensures
        r.0 == distance_code(symbol as nat).0,
        r.1 == distance_code(symbol as nat).1,
        r.0 <= 13,
        r.1 <= 24577,
{
    proof {
        lemma_distance_table();
    }
    match symbol {
        0 => (0, 1),
        1 => (0, 2),
        2 => (0, 3),
        3 => (0, 4),
        4 => (1, 5),
        5 => (1, 7),
        6 => (2, 9),
        7 => (2, 13),
        8 => (3, 17),
        9 => (3, 25),
        10 => (4, 33),
        11 => (4, 49),
        12 => (5, 65),
        13 => (5, 97),
        14 => (6, 129),
        15 => (6, 193),
        16 => (7, 257),
        17 => (7, 385),
        18 => (8, 513),
        19 => (8, 769),
        20 => (9, 1025),
        21 => (9, 1537),
        22 => (10, 2049),
        23 => (10, 3073),
        24 => (11, 4097),
        25 => (11, 6145),
        26 => (12, 8193),
        27 => (12, 12289),
        28 => (13, 16385),
        _ => (13, 24577),
    }
}

/// Reads the (length, distance) pair that follows the length symbol `code`.
pub fn read_distance(data: &mut BitReader, distance_coder: &HuffmanCode, code: usize) -> (r: Result<
    (usize, usize),
    Error,
>)
    ensures
        final(data).stream() == old(data).stream(),
        match spec_read_distance(distance_coder@, old(data).stream(), old(data).position(), code as nat) {
            Ok(((length, distance), p)) => r == Ok::<(usize, usize), Error>(
                (length as usize, distance as usize),
            ) && final(data).position() == p && 3 <= length <= 258 && 1 <= distance <= 32768,
            Err(e) => r == Err::<(usize, usize), Error>(e),
        },
{
    proof {
        lemma_read_distance(distance_coder@, data.stream(), data.position(), code as nat);
    }
    if code < 257 || code > 285 {
        return Err(Error::InvalidCode);
    }
    let (extra_bits, partial_length) = length_of_symbol(code);
    let more: usize = match read_small(data, extra_bits) {
        Ok(v) => v,
        Err(e) => {
            return Err(e);
        },
    };
    let length: usize = partial_length + more;
    let distance_code: usize = match distance_coder.next_code(data) {
        Ok(c) => c,
        Err(e) => {
            return Err(e);
        },
    };
    if distance_code > 29 {
        return Err(Error::InvalidCode);
    }
    let (extra_bits_distance, base_distance) = distance_of_symbol(distance_code);
    let far: usize = match read_small(data, extra_bits_distance) {
        Ok(v) => v,
        Err(e) => {
            return Err(e);
        },
    };
    Ok((length, base_distance + far))
}

/// Appends a back-reference to `out`: `length` bytes, each the byte
/// `distance` before the end of what stands by then.
pub fn copy_match(out: &mut Vec<u8>, distance: usize, length: usize)
    requires
        1 <= distance <= old(out)@.len(),
    ensures
        final(out)@ == spec_copy(old(out)@, distance as nat, length as nat),
{
    let mut done: usize = 0;
    while done < length
        invariant
            done <= length,
            1 <= distance <= out@.len(),
            spec_copy(old(out)@, distance as nat, length as nat) == spec_copy(
                out@,
                distance as nat,
                (length - done) as nat,
            ),
        decreases length - done,
    {
        let byte: u8 = out[out.len() - distance];
        out.push(byte);
        done = done + 1;
    }
}

/// Decodes one symbol of a Huffman block into `out`. Returns whether it was
/// the end-of-block symbol.
fn read_symbol(
    data: &mut BitReader,
    literal_coder: &HuffmanCode,
    distance_coder: &HuffmanCode,
    out: &mut Vec<u8>,
    limit: usize,
) -> (r: Result<bool, Error>)
    ensures
        final(data).stream() == old(data).stream(),
        match spec_symbol(
            literal_coder@,
            distance_coder@,
            old(data).stream(),
            old(data).position(),
            old(out)@,
            limit as nat,
        ) {
            Ok((done, grown, p)) => r == Ok::<bool, Error>(done) && final(out)@ == grown
                && final(data).position() == p,
            Err(e) => r == Err::<bool, Error>(e),
        },
{
    proof {
        lemma_decode_from(literal_coder@, data.stream(), data.position(), 1);
    }
    let x: usize = match literal_coder.next_code(data) {
        Ok(c) => c,
        Err(e) => {
            return Err(e);
        },
    };
    if x < 256 {
        if out.len() >= limit {
            return Err(Error::OutputTooLarge);
        }
        out.push(x as u8);
        Ok(false)
    } else if x == 256 {
        Ok(true)
    } else {
        let (length, distance) = match read_distance(data, distance_coder, x) {
            Ok(pair) => pair,
            Err(e) => {
                return Err(e);
            },
        };
        if distance == 0 || distance > out.len() {
            return Err(Error::BadDistance);
        }
        if out.len() > limit || length > limit - out.len() {
            return Err(Error::OutputTooLarge);
        }
        copy_match(out, distance, length);
        Ok(false)
    }
}

/// Decodes the symbols of one Huffman block into `out`, up to the
/// end-of-block symbol.
pub fn read_huffman(
    data: &mut BitReader,
    literal_coder: &HuffmanCode,
    distance_coder: &HuffmanCode,
    out: &mut Vec<u8>,
    limit: usize,
) -> (r: Result<(), Error>)
    ensures
        final(data).stream() == old(data).stream(),
        match spec_huffman_block(
            literal_coder@,
            distance_coder@,
            old(data).stream(),
            old(data).position(),
            old(out)@,
            limit as nat,
        ) {
            Ok((grown, p)) => r is Ok && final(out)@ == grown && final(data).position() == p,
            Err(e) => r == Err::<(), Error>(e),
        },
{
    let ghost bytes = data.stream();
    let ghost pos = data.position();
    let ghost lit = literal_coder@;
    let ghost dist = distance_coder@;
    loop
        invariant
            bytes == old(data).stream(),
            pos == old(data).position(),
            lit == literal_coder@,
            dist == distance_coder@,
            data.stream() == bytes,
            spec_huffman_block(lit, dist, bytes, pos, old(out)@, limit as nat)
                == spec_huffman_block(lit, dist, bytes, data.position(), out@, limit as nat),
        decreases bit_len(bytes) - data.position(),
    {
        proof {
            lemma_symbol(lit, dist, bytes, data.position(), out@, limit as nat);
        }
        match read_symbol(data, literal_coder, distance_coder, out, limit) {
            Ok(done) => {
                if done {
                    return Ok(());
                }
            },
            Err(e) => {
                return Err(e);
            },
        }
    }
}

/// Reads one stored block into `out`, after its three header bits.
pub fn read_no_compression(data: &mut BitReader, out: &mut Vec<u8>, limit: usize) -> (r: Result<
    (),
    Error,
>)
    ensures
        final(data).stream() == old(data).stream(),
        match spec_stored(old(data).stream(), old(data).position(), old(out)@, limit as nat) {
            Ok((grown, p)) => r is Ok && final(out)@ == grown && final(data).position() == p,
            Err(e) => r == Err::<(), Error>(e),
        },
{
    let ghost bytes = data.stream();
    let skipped = data.align_to_byte();
    let ghost start = data.position();
    let len: usize = match read_small(data, 16) {
        Ok(v) => v,
        Err(e) => {
            return Err(e);
        },
    };
    let check_len: usize = match read_small(data, 16) {
        Ok(v) => v,
        Err(e) => {
            return Err(e);
        },
    };
    if len + check_len != 0xFFFF {
        return Err(Error::LengthMismatch);
    }
    if out.len() > limit || len > limit - out.len() {
        return Err(Error::OutputTooLarge);
    }
    let mut block = match data.read_exact(len) {
        Ok(v) => v,
        Err(e) => {
            return Err(e);
        },
    };
    out.append(&mut block);
    Ok(())
}

/// Reads one block of the type numbered `btype` into `out`, after its three
/// header bits.
fn read_block_of_type(
    data: &mut BitReader,
    fixed_literal_code: &HuffmanCode,
    fixed_distance_code: &HuffmanCode,
    out: &mut Vec<u8>,
    limit: usize,
    btype: usize,
) -> (r: Result<(), Error>)
    requires
        fixed_literal_code@ == fixed_literal_lengths(),
        fixed_distance_code@ == fixed_distance_lengths(),
    ensures
        final(data).stream() == old(data).stream(),
        match spec_block(
            old(data).stream(),
            old(data).position(),
            btype as nat,
            old(out)@,
            limit as nat,
        ) {
            Ok((grown, p)) => r is Ok && final(out)@ == grown && final(data).position() == p,
            Err(e) => r == Err::<(), Error>(e),
        },
{
    proof {
        reveal(spec_block);
    }
    match EncodingType::from(btype as u64) {
        None => Err(Error::InvalidBlock),
        Some(EncodingType::NoCompression) => read_no_compression(data, out, limit),
        Some(EncodingType::FixedHuffman) => read_huffman(
            data,
            fixed_literal_code,
            fixed_distance_code,
            out,
            limit,
        ),
        Some(EncodingType::DynamicHuffman) => {
            let (literal_code, distance_code) = match read_huffman_code(data) {
                Ok(pair) => pair,
                Err(e) => {
                    return Err(e);
                },
            };
            read_huffman(data, &literal_code, &distance_code, out, limit)
        },
    }
}

/// Reads one block, header and all, into `out`. Returns whether it was
/// marked final.
fn read_block(
    data: &mut BitReader,
    fixed_literal_code: &HuffmanCode,
    fixed_distance_code: &HuffmanCode,
    out: &mut Vec<u8>,
    limit: usize,
) -> (r: Result<bool, Error>)
    requires
        fixed_literal_code@ == fixed_literal_lengths(),
        fixed_distance_code@ == fixed_distance_lengths(),
    ensures
        final(data).stream() == old(data).stream(),
        match spec_one_block(old(data).stream(), old(data).position(), old(out)@, limit as nat) {
            Ok((last, grown, p)) => r == Ok::<bool, Error>(last) && final(out)@ == grown
                && final(data).position() == p,
            Err(e) => r == Err::<bool, Error>(e),
        },
{
    let ghost bytes = data.stream();
    let ghost here = data.position();
    let bfinal: u64 = match data.read_number(1) {
        Ok(v) => v,
        Err(e) => {
            return Err(e);
        },
    };
    let btype: usize = match read_small(data, 2) {
        Ok(v) => v,
        Err(e) => {
            return Err(e);
        },
    };
    proof {
        lemma_number_bits_one(bytes, here as int);
        lemma_bit_of_bound(bytes[here as int / 8], here as int % 8);
        assert(bfinal == bit_at(bytes, here as int));
        assert(bfinal <= 1);
        assert(btype == number_bits(bytes, (here + 1) as int, 2));
    }
    match read_block_of_type(data, fixed_literal_code, fixed_distance_code, out, limit, btype) {
        Ok(()) => Ok(bfinal > 0),
        Err(e) => Err(e),
    }
}

/// Decompresses a raw DEFLATE stream from where `data` stands: block after
/// block, up to and with the first block marked final. Fails with
/// `OutputTooLarge` where the output would pass `limit` bytes.
pub fn rfc1951_with_limit(data: &mut BitReader, limit: usize) -> (r: Result<Vec<u8>, Error>)
    ensures
        final(data).stream() == old(data).stream(),
        match spec_inflate(old(data).stream(), old(data).position(), limit as nat) {
            Ok((out, p)) => r is Ok && r->Ok_0@ == out && final(data).position() == p,
            Err(e) => r == Err::<Vec<u8>, Error>(e),
        },
{
    let ghost bytes = data.stream();
    let ghost pos = data.position();
    let fixed_literal_code = generate_fixed_huffman();
    let fixed_distance_code = generate_fixed_distance_code();
    let mut decoded: Vec<u8> = Vec::new();
    loop
        invariant
            bytes == old(data).stream(),
            pos == old(data).position(),
            data.stream() == bytes,
            fixed_literal_code@ == fixed_literal_lengths(),
            fixed_distance_code@ == fixed_distance_lengths(),
            spec_blocks(bytes, pos, Seq::empty(), limit as nat) == spec_blocks(
                bytes,
                data.position(),
                decoded@,
                limit as nat,
            ),
        decreases bit_len(bytes) - data.position(),
    {
        proof {
            lemma_one_block(bytes, data.position(), decoded@, limit as nat);
        }
        match read_block(data, &fixed_literal_code, &fixed_distance_code, &mut decoded, limit) {
            Ok(last) => {
                if last {
                    return Ok(decoded);
                }
            },
            Err(e) => {
                return Err(e);
            },
        }
    }
}

/// Decompresses a raw DEFLATE stream (RFC 1951) from where `data` stands,
/// with the default cap on the output.
pub fn rfc1951(data: &mut BitReader) -> (r: Result<Vec<u8>, Error>)
    ensures
        final(data).stream() == old(data).stream(),
        match spec_inflate(old(data).stream(), old(data).position(), DEFAULT_OUTPUT_LIMIT as nat) {
            Ok((out, p)) => r is Ok && r->Ok_0@ == out && final(data).position() == p,
            Err(e) => r == Err::<Vec<u8>, Error>(e),
        },
{
    rfc1951_with_limit(data, DEFAULT_OUTPUT_LIMIT)
}

/// A zlib stream at `pos`: the two header bytes `CMF` and `FLG`, the id of a
/// preset dictionary where `FDICT` is set, the DEFLATE stream, the padding
/// to the byte boundary and the four bytes of the Adler-32 checksum.
/// `HeaderMismatch` where the method is not 8 or `CMF * 256 + FLG` is no
/// multiple of 31. The checksum is read and not compared.
pub open spec fn spec_zlib(bytes: Seq<u8>, pos: nat, limit: nat) -> Step {
    if pos + 16 > bit_len(bytes) {
        Err(Error::UnexpectedEof)
    } else {
        let cmf = number_bits(bytes, pos as int, 8);
        let flg = number_bits(bytes, (pos + 8) as int, 8);
        if cmf % 16 != 8 || (cmf * 256 + flg) % 31 != 0 {
            Err(Error::HeaderMismatch)
        } else {
            let body: nat = if (flg / 32) % 2 == 1 {
                pos + 48
            } else {
                pos + 16
            };
            if body > bit_len(bytes) {
                Err(Error::UnexpectedEof)
            } else {
                match spec_inflate(bytes, body, limit) {
                    Err(e) => Err(e),
                    Ok((out, end)) => {
                        let trailer = end + bits_to_boundary(end);
                        if trailer + 32 > bit_len(bytes) {
                            Err(Error::UnexpectedEof)
                        } else {
                            Ok((out, trailer + 32))
                        }
                    },
                }
            }
        }
    }
}

/// Decompresses a zlib stream from where `data` stands. Fails with
/// `OutputTooLarge` where the output would pass `limit` bytes.
pub fn rfc1950_with_limit(data: &mut BitReader, limit: usize) -> (r: Result<Vec<u8>, Error>)
    ensures
        final(data).stream() == old(data).stream(),
        match spec_zlib(old(data).stream(), old(data).position(), limit as nat) {
            Ok((out, p)) => r is Ok && r->Ok_0@ == out && final(data).position() == p,
            Err(e) => r == Err::<Vec<u8>, Error>(e),
        },
{
    let cmf: usize = match read_small(data, 8) {
        Ok(v) => v,
        Err(e) => {
            return Err(e);
        },
    };
    let flg: usize = match read_small(data, 8) {
        Ok(v) => v,
        Err(e) => {
            return Err(e);
        },
    };
    proof {
        lemma2_to64();
    }
    if cmf % 16 != 8 || (cmf * 256 + flg) % 31 != 0 {
        return Err(Error::HeaderMismatch);
    }
    if (flg / 32) % 2 == 1 {
        match data.read_number(32) {
            Ok(_) => {},
            Err(e) => {
                return Err(e);
            },
        }
    }
    let out = match rfc1951_with_limit(data, limit) {
        Ok(v) => v,
        Err(e) => {
            return Err(e);
        },
    };
    let skipped = data.align_to_byte();
    match data.read_number(32) {
        Ok(_) => {},
        Err(e) => {
            return Err(e);
        },
    }
    Ok(out)
}

/// Decompresses a zlib stream (RFC 1950) from where `data` stands, with the
/// default cap on the output.
pub fn rfc1950(data: &mut BitReader) -> (r: Result<Vec<u8>, Error>)
    ensures
        final(data).stream() == old(data).stream(),
        match spec_zlib(old(data).stream(), old(data).position(), DEFAULT_OUTPUT_LIMIT as nat) {
            Ok((out, p)) => r is Ok && r->Ok_0@ == out && final(data).position() == p,
            Err(e) => r == Err::<Vec<u8>, Error>(e),
        },
{
    rfc1950_with_limit(data, DEFAULT_OUTPUT_LIMIT)
}

} // verus!
