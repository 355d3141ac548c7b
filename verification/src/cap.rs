//! The cap on the output, and what it changes: nothing, as long as the
//! output stays within it.
//!
//! A stream that decompresses under one cap decompresses to the same bytes
//! under every cap that its output fits, and fails with `OutputTooLarge`
//! under every cap that it does not fit.

use vstd::prelude::*;
use crate::error::Error;
use crate::bit_reader::bit_len;
use crate::deflate::{
    Step,
    EncodingType,
    spec_read_distance,
    spec_symbol,
    spec_huffman_block,
    spec_dynamic_tables,
    spec_block,
    spec_one_block,
    spec_blocks,
    spec_inflate,
    spec_zlib,
    fixed_literal_lengths,
    fixed_distance_lengths,
    lemma_symbol,
    lemma_one_block,
    lemma_copy_len,
    lemma_huffman_block_advances,
};
use crate::huffman::decode;

verus! {

/// What a construct that gives `found` under some cap gives under the cap
/// `limit`: the same where its output fits, and `OutputTooLarge` where it
/// does not.
pub open spec fn capped_step(found: (Seq<u8>, nat), limit: nat) -> Step {
    if found.0.len() <= limit {
        Ok(found)
    } else {
        Err(Error::OutputTooLarge)
    }
}

/// One symbol under another cap: the same where the output after it fits,
/// `OutputTooLarge` where it does not.
pub proof fn lemma_symbol_under_cap(
    lit: Seq<u8>,
    dist: Seq<u8>,
    bytes: Seq<u8>,
    pos: nat,
    out: Seq<u8>,
    big: nat,
    limit: nat,
)
    requires
        spec_symbol(lit, dist, bytes, pos, out, big) is Ok,
        out.len() <= limit,
    ensures
        spec_symbol(lit, dist, bytes, pos, out, limit) == if spec_symbol(
            lit,
            dist,
            bytes,
            pos,
            out,
            big,
        )->Ok_0.1.len() <= limit {
            spec_symbol(lit, dist, bytes, pos, out, big)
        } else {
            Err(Error::OutputTooLarge)
        },
{
    if let Ok((symbol, n)) = decode(lit, bytes, pos) {
        if symbol > 256 {
            if let Ok(((length, distance), after)) = spec_read_distance(
                dist,
                bytes,
                pos + n,
                symbol,
            ) {
                lemma_copy_len(out, distance, length);
            }
        }
    }
}

/// A Huffman block under another cap.
pub proof fn lemma_huffman_block_under_cap(
    lit: Seq<u8>,
    dist: Seq<u8>,
    bytes: Seq<u8>,
    pos: nat,
    out: Seq<u8>,
    big: nat,
    limit: nat,
)
    requires
        spec_huffman_block(lit, dist, bytes, pos, out, big) is Ok,
        out.len() <= limit,
    ensures
        spec_huffman_block(lit, dist, bytes, pos, out, limit) == capped_step(
            spec_huffman_block(lit, dist, bytes, pos, out, big)->Ok_0,
            limit,
        ),
    decreases bit_len(bytes) - pos,
{
    lemma_symbol(lit, dist, bytes, pos, out, big);
    lemma_symbol_under_cap(lit, dist, bytes, pos, out, big, limit);
    let (done, grown, after) = spec_symbol(lit, dist, bytes, pos, out, big)->Ok_0;
    if !done {
        lemma_huffman_block_advances(lit, dist, bytes, after, grown, big);
        if grown.len() <= limit {
            lemma_huffman_block_under_cap(lit, dist, bytes, after, grown, big, limit);
        }
    }
}

/// A block adds to the output and takes nothing from it.
pub proof fn lemma_block_grows(bytes: Seq<u8>, pos: nat, btype: nat, out: Seq<u8>, limit: nat)
    ensures
        spec_block(bytes, pos, btype, out, limit) matches Ok((grown, after)) ==> out.len()
            <= grown.len(),
{
    reveal(spec_block);
    match EncodingType::spec_from(btype) {
        Some(EncodingType::FixedHuffman) => {
            lemma_huffman_block_advances(
                fixed_literal_lengths(),
                fixed_distance_lengths(),
                bytes,
                pos,
                out,
                limit,
            );
        },
        Some(EncodingType::DynamicHuffman) => {
            if let Ok(((lit, dist), after)) = spec_dynamic_tables(bytes, pos) {
                lemma_huffman_block_advances(lit, dist, bytes, after, out, limit);
            }
        },
        _ => {},
    }
}

/// A block under another cap.
pub proof fn lemma_block_under_cap(
    bytes: Seq<u8>,
    pos: nat,
    btype: nat,
    out: Seq<u8>,
    big: nat,
    limit: nat,
)
    requires
        spec_block(bytes, pos, btype, out, big) is Ok,
        out.len() <= limit,
    ensures
        spec_block(bytes, pos, btype, out, limit) == capped_step(
            spec_block(bytes, pos, btype, out, big)->Ok_0,
            limit,
        ),
{
    reveal(spec_block);
    match EncodingType::spec_from(btype) {
        Some(EncodingType::FixedHuffman) => {
            lemma_huffman_block_under_cap(
                fixed_literal_lengths(),
                fixed_distance_lengths(),
                bytes,
                pos,
                out,
                big,
                limit,
            );
        },
        Some(EncodingType::DynamicHuffman) => {
            if let Ok(((lit, dist), after)) = spec_dynamic_tables(bytes, pos) {
                lemma_huffman_block_under_cap(lit, dist, bytes, after, out, big, limit);
            }
        },
        _ => {},
    }
}

/// The blocks of a stream add to the output and take nothing from it.
pub proof fn lemma_blocks_grow(bytes: Seq<u8>, pos: nat, out: Seq<u8>, limit: nat)
    ensures
        spec_blocks(bytes, pos, out, limit) matches Ok((grown, after)) ==> out.len() <= grown.len(),
    decreases bit_len(bytes) - pos,
{
    lemma_one_block(bytes, pos, out, limit);
    if let Ok((last, grown, after)) = spec_one_block(bytes, pos, out, limit) {
        lemma_block_grows(
            bytes,
            pos + 3,
            crate::bit_reader::number_bits(bytes, (pos + 1) as int, 2),
            out,
            limit,
        );
        if !last {
            lemma_blocks_grow(bytes, after, grown, limit);
        }
    }
}

/// The blocks of a stream under another cap: the same output where it
/// fits, `OutputTooLarge` where it does not.
pub proof fn lemma_blocks_under_cap(bytes: Seq<u8>, pos: nat, out: Seq<u8>, big: nat, limit: nat)
    requires
        spec_blocks(bytes, pos, out, big) is Ok,
        out.len() <= limit,
    ensures
        spec_blocks(bytes, pos, out, limit) == capped_step(
            spec_blocks(bytes, pos, out, big)->Ok_0,
            limit,
        ),
    decreases bit_len(bytes) - pos,
{
    lemma_one_block(bytes, pos, out, big);
    let btype = crate::bit_reader::number_bits(bytes, (pos + 1) as int, 2);
    let (last, grown, after) = spec_one_block(bytes, pos, out, big)->Ok_0;
    lemma_block_under_cap(bytes, pos + 3, btype, out, big, limit);
    if !last {
        lemma_blocks_grow(bytes, after, grown, big);
        if grown.len() <= limit {
            lemma_blocks_under_cap(bytes, after, grown, big, limit);
        }
    }
}

/// A stream under another cap: where a DEFLATE stream decompresses under
/// some cap, it decompresses to the same bytes under every cap that they
/// fit, and fails with `OutputTooLarge` under every other.
pub proof fn lemma_inflate_under_cap(bytes: Seq<u8>, pos: nat, big: nat, limit: nat)
    requires
        spec_inflate(bytes, pos, big) is Ok,
    ensures
        spec_inflate(bytes, pos, limit) == capped_step(spec_inflate(bytes, pos, big)->Ok_0, limit),
{
    lemma_blocks_under_cap(bytes, pos, Seq::empty(), big, limit);
}

/// A zlib stream under another cap: where it decompresses under some cap,
/// it decompresses to the same bytes under every cap that they fit, and
/// fails with `OutputTooLarge` under every other.
pub proof fn lemma_zlib_under_cap(bytes: Seq<u8>, pos: nat, big: nat, limit: nat)
    requires
        spec_zlib(bytes, pos, big) is Ok,
    ensures
        spec_zlib(bytes, pos, limit) == capped_step(spec_zlib(bytes, pos, big)->Ok_0, limit),
{
    let flg = crate::bit_reader::number_bits(bytes, (pos + 8) as int, 8);
    let body: nat = if (flg / 32) % 2 == 1 {
        pos + 48
    } else {
        pos + 16
    };
    lemma_inflate_under_cap(bytes, body, big, limit);
}

} // verus!
