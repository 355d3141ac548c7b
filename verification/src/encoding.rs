//! What a DEFLATE stream holds, from the side of the one who writes it.
//!
//! A writer lays blocks into a stream. A block is stored bytes, or tokens
//! under a pair of codes: a token is a literal byte or a match, which
//! stands for a length and a distance back into what was written. What a
//! stream holds is stated without a word on how to read it; that reading it
//! gives back the bytes that the blocks stand for is proved here.

use vstd::prelude::*;
use vstd::arithmetic::power2::pow2;
use crate::error::Error;
use crate::bit_reader::{
    bit_at,
    bit_len,
    bits_to_boundary,
    code_bits,
    number_bits,
};
use crate::huffman::{
    code_of,
    first_code,
    decode,
    lemma_decode_of_code,
    lemma_count_absent,
    MAX_CODE_LENGTH,
};
use crate::deflate::{
    number_at,
    length_code,
    distance_code,
    spec_read_distance,
    spec_copy,
    spec_symbol,
    spec_huffman_block,
    spec_dynamic_tables,
    spec_block,
    spec_one_block,
    spec_blocks,
    spec_inflate,
    fixed_literal_lengths,
    fixed_distance_lengths,
};
use crate::cap::lemma_inflate_under_cap;

verus! {

/// One token of a Huffman block: a literal byte, or a match, given by the
/// symbols of its length and of its distance and by the extra bits of each.
pub enum Token {
    Literal(u8),
    Match { length_symbol: nat, length_extra: nat, distance_symbol: nat, distance_extra: nat },
}

impl Token {
    /// Whether the symbols of a match are symbols of lengths and of
    /// distances, and its extra bits fit the number of extra bits of each.
    pub open spec fn well_formed(self) -> bool {
        match self {
            Token::Literal(_) => true,
            Token::Match { length_symbol, length_extra, distance_symbol, distance_extra } => {
                &&& 257 <= length_symbol <= 285
                &&& length_extra < pow2(length_code(length_symbol).0)
                &&& distance_symbol <= 29
                &&& distance_extra < pow2(distance_code(distance_symbol).0)
            },
        }
    }

    /// The length of a match.
    pub open spec fn length(self) -> nat {
        match self {
            Token::Literal(_) => 1,
            Token::Match { length_symbol, length_extra, .. } => length_code(length_symbol).1
                + length_extra,
        }
    }

    /// The distance of a match.
    pub open spec fn distance(self) -> nat {
        match self {
            Token::Literal(_) => 0,
            Token::Match { distance_symbol, distance_extra, .. } => distance_code(
                distance_symbol,
            ).1 + distance_extra,
        }
    }

    /// The output after the token: with the literal byte, or with the bytes
    /// of the match.
    pub open spec fn expand(self, out: Seq<u8>) -> Seq<u8> {
        match self {
            Token::Literal(byte) => out.push(byte),
            Token::Match { .. } => spec_copy(out, self.distance(), self.length()),
        }
    }

    /// Whether the token can follow the output `out`: a match reaches back
    /// no further than the output goes, and the output with the token stays
    /// within `limit`.
    pub open spec fn fits(self, out: Seq<u8>, limit: nat) -> bool {
        match self {
            Token::Literal(_) => out.len() + 1 <= limit,
            Token::Match { .. } => self.distance() <= out.len() && out.len() + self.length()
                <= limit,
        }
    }
}

/// Whether the bits of the stream at `pos` spell the code of `symbol` in
/// the code with the lengths `lengths`, first bit first.
pub open spec fn holds_code(lengths: Seq<u8>, bytes: Seq<u8>, pos: nat, symbol: nat) -> bool {
    &&& symbol < lengths.len()
    &&& 1 <= lengths[symbol as int] <= MAX_CODE_LENGTH
    &&& pos + lengths[symbol as int] <= bit_len(bytes)
    &&& code_bits(bytes, pos as int, lengths[symbol as int] as nat) == code_of(
        lengths,
        symbol as int,
    )
}

/// Whether the `n` bits of the stream at `pos` spell the number `value`,
/// lowest bit first.
pub open spec fn holds_number(bytes: Seq<u8>, pos: nat, n: nat, value: nat) -> bool {
    pos + n <= bit_len(bytes) && number_bits(bytes, pos as int, n) == value
}

/// The position after a token that stands at `pos`.
pub open spec fn token_end(lit: Seq<u8>, dist: Seq<u8>, token: Token, pos: nat) -> nat {
    match token {
        Token::Literal(byte) => pos + lit[byte as int] as nat,
        Token::Match { length_symbol, distance_symbol, .. } => pos
            + lit[length_symbol as int] as nat + length_code(length_symbol).0
            + dist[distance_symbol as int] as nat + distance_code(distance_symbol).0,
    }
}

/// Whether the stream holds `token` at `pos`: the code of a literal; or,
/// for a match, the code of its length symbol, the extra bits of the
/// length, the code of its distance symbol and the extra bits of the
/// distance.
pub open spec fn holds_token(
    lit: Seq<u8>,
    dist: Seq<u8>,
    bytes: Seq<u8>,
    pos: nat,
    token: Token,
) -> bool {
    match token {
        Token::Literal(byte) => holds_code(lit, bytes, pos, byte as nat),
        Token::Match { length_symbol, length_extra, distance_symbol, distance_extra } => {
            let length_extra_at = pos + lit[length_symbol as int] as nat;
            let distance_at = length_extra_at + length_code(length_symbol).0;
            let distance_extra_at = distance_at + dist[distance_symbol as int] as nat;
            &&& holds_code(lit, bytes, pos, length_symbol)
            &&& holds_number(bytes, length_extra_at, length_code(length_symbol).0, length_extra)
            &&& holds_code(dist, bytes, distance_at, distance_symbol)
            &&& holds_number(bytes, distance_extra_at, distance_code(distance_symbol).0, distance_extra)
        },
    }
}

/// Whether the stream holds the tokens `tokens` from `pos` on, one after the
/// other, and the end-of-block symbol after them.
pub open spec fn holds_tokens(
    lit: Seq<u8>,
    dist: Seq<u8>,
    bytes: Seq<u8>,
    pos: nat,
    tokens: Seq<Token>,
) -> bool
    decreases tokens.len(),
{
    if tokens.len() == 0 {
        holds_code(lit, bytes, pos, 256)
    } else {
        tokens[0].well_formed() && holds_token(lit, dist, bytes, pos, tokens[0]) && holds_tokens(
            lit,
            dist,
            bytes,
            token_end(lit, dist, tokens[0], pos),
            tokens.skip(1),
        )
    }
}

/// The position after the tokens `tokens` that stand from `pos` on, and
/// after the end-of-block symbol.
pub open spec fn tokens_end(lit: Seq<u8>, dist: Seq<u8>, tokens: Seq<Token>, pos: nat) -> nat
    decreases tokens.len(),
{
    if tokens.len() == 0 {
        pos + lit[256] as nat
    } else {
        tokens_end(lit, dist, tokens.skip(1), token_end(lit, dist, tokens[0], pos))
    }
}

/// The output after the tokens `tokens`.
pub open spec fn expand_tokens(out: Seq<u8>, tokens: Seq<Token>) -> Seq<u8>
    decreases tokens.len(),
{
    if tokens.len() == 0 {
        out
    } else {
        expand_tokens(tokens[0].expand(out), tokens.skip(1))
    }
}

/// Whether the tokens `tokens` can follow the output `out`, one after the
/// other.
pub open spec fn tokens_fit(out: Seq<u8>, tokens: Seq<Token>, limit: nat) -> bool
    decreases tokens.len(),
{
    if tokens.len() == 0 {
        true
    } else {
        tokens[0].fits(out, limit) && tokens_fit(tokens[0].expand(out), tokens.skip(1), limit)
    }
}

/// A number that the stream holds is the number that is read.
proof fn lemma_number_that_is_held(bytes: Seq<u8>, pos: nat, n: nat, value: nat)
    requires
        holds_number(bytes, pos, n, value),
    ensures
        number_at(bytes, pos, n) == Ok::<(nat, nat), Error>((value, pos + n)),
{
}

/// A symbol whose code the stream holds is the symbol that is decoded.
proof fn lemma_code_that_is_held(lengths: Seq<u8>, bytes: Seq<u8>, pos: nat, symbol: nat)
    requires
        holds_code(lengths, bytes, pos, symbol),
    ensures
        decode(lengths, bytes, pos) == Ok::<(nat, nat), Error>(
            (symbol, lengths[symbol as int] as nat),
        ),
{
    lemma_decode_of_code(lengths, symbol as int, bytes, pos);
}

/// A match that the stream holds is read as its length and its distance.
proof fn lemma_match_that_is_held(
    lit: Seq<u8>,
    dist: Seq<u8>,
    bytes: Seq<u8>,
    pos: nat,
    token: Token,
)
    requires
        token is Match,
        token.well_formed(),
        holds_token(lit, dist, bytes, pos, token),
    ensures
        spec_read_distance(
            dist,
            bytes,
            pos + lit[token->length_symbol as int] as nat,
            token->length_symbol,
        ) == Ok::<((nat, nat), nat), Error>(
            ((token.length(), token.distance()), token_end(lit, dist, token, pos)),
        ),
{
    let ls = token->length_symbol;
    let ds = token->distance_symbol;
    let length_extra_at = pos + lit[ls as int] as nat;
    let distance_at = length_extra_at + length_code(ls).0;
    let distance_extra_at = distance_at + dist[ds as int] as nat;
    lemma_number_that_is_held(bytes, length_extra_at, length_code(ls).0, token->length_extra);
    lemma_code_that_is_held(dist, bytes, distance_at, ds);
    lemma_number_that_is_held(bytes, distance_extra_at, distance_code(ds).0, token->distance_extra);
}

/// A token that the stream holds is read as that token: what it does to the
/// output is done, and the reading goes on after it.
proof fn lemma_token_that_is_held(
    lit: Seq<u8>,
    dist: Seq<u8>,
    bytes: Seq<u8>,
    pos: nat,
    token: Token,
    out: Seq<u8>,
    limit: nat,
)
    requires
        token.well_formed(),
        holds_token(lit, dist, bytes, pos, token),
        token.fits(out, limit),
    ensures
        spec_symbol(lit, dist, bytes, pos, out, limit) == Ok::<(bool, Seq<u8>, nat), Error>(
            (false, token.expand(out), token_end(lit, dist, token, pos)),
        ),
{
    match token {
        Token::Literal(byte) => {
            lemma_code_that_is_held(lit, bytes, pos, byte as nat);
        },
        Token::Match { length_symbol, length_extra, distance_symbol, distance_extra } => {
            lemma_code_that_is_held(lit, bytes, pos, length_symbol);
            lemma_match_that_is_held(lit, dist, bytes, pos, token);
            crate::deflate::lemma_distance_table();
            assert(token.distance() >= 1);
        },
    }
}

/// The tokens that a Huffman block holds are read back: the block is read
/// as what the tokens stand for, added to the output, and to its end.
pub proof fn lemma_huffman_block_of_tokens(
    lit: Seq<u8>,
    dist: Seq<u8>,
    bytes: Seq<u8>,
    pos: nat,
    tokens: Seq<Token>,
    out: Seq<u8>,
    limit: nat,
)
    requires
        holds_tokens(lit, dist, bytes, pos, tokens),
        tokens_fit(out, tokens, limit),
    ensures
        spec_huffman_block(lit, dist, bytes, pos, out, limit) == Ok::<(Seq<u8>, nat), Error>(
            (expand_tokens(out, tokens), tokens_end(lit, dist, tokens, pos)),
        ),
    decreases tokens.len(),
{
    if tokens.len() == 0 {
        lemma_code_that_is_held(lit, bytes, pos, 256);
    } else {
        lemma_token_that_is_held(lit, dist, bytes, pos, tokens[0], out, limit);
        lemma_huffman_block_of_tokens(
            lit,
            dist,
            bytes,
            token_end(lit, dist, tokens[0], pos),
            tokens.skip(1),
            tokens[0].expand(out),
            limit,
        );
    }
}

/// One block of a stream: bytes that are stored, or tokens under the fixed
/// pair of codes, or tokens under a pair of codes that the block brings
/// along, given by their code lengths.
pub enum Block {
    Stored(Seq<u8>),
    Fixed(Seq<Token>),
    Dynamic(Seq<u8>, Seq<u8>, Seq<Token>),
}

impl Block {
    /// The number of the type of the block.
    pub open spec fn block_type(self) -> nat {
        match self {
            Block::Stored(_) => 0,
            Block::Fixed(_) => 1,
            Block::Dynamic(_, _, _) => 2,
        }
    }

    /// The output after the block.
    pub open spec fn expand(self, out: Seq<u8>) -> Seq<u8> {
        match self {
            Block::Stored(chunk) => out + chunk,
            Block::Fixed(tokens) => expand_tokens(out, tokens),
            Block::Dynamic(_, _, tokens) => expand_tokens(out, tokens),
        }
    }

    /// Whether the block can follow the output `out`.
    pub open spec fn fits(self, out: Seq<u8>, limit: nat) -> bool {
        match self {
            Block::Stored(chunk) => out.len() + chunk.len() <= limit,
            Block::Fixed(tokens) => tokens_fit(out, tokens, limit),
            Block::Dynamic(_, _, tokens) => tokens_fit(out, tokens, limit),
        }
    }

    /// Whether the stream holds the block from `pos` on, after the three
    /// bits of its header. A stored block is padding to the byte boundary,
    /// the length and its complement as numbers of 16 bits, and the bytes. A
    /// block with codes of its own starts with the header that gives their
    /// lengths.
    pub open spec fn held(self, bytes: Seq<u8>, pos: nat) -> bool {
        match self {
            Block::Stored(chunk) => {
                let start = pos + bits_to_boundary(pos);
                &&& chunk.len() <= 0xFFFF
                &&& holds_number(bytes, start, 16, chunk.len())
                &&& holds_number(bytes, start + 16, 16, (0xFFFF - chunk.len()) as nat)
                &&& start / 8 + 4 + chunk.len() <= bytes.len()
                &&& bytes.subrange((start / 8 + 4) as int, (start / 8 + 4 + chunk.len()) as int)
                    == chunk
            },
            Block::Fixed(tokens) => holds_tokens(
                fixed_literal_lengths(),
                fixed_distance_lengths(),
                bytes,
                pos,
                tokens,
            ),
            Block::Dynamic(lit, dist, tokens) => match spec_dynamic_tables(bytes, pos) {
                Ok(((l, d), after)) => l == lit && d == dist && holds_tokens(
                    lit,
                    dist,
                    bytes,
                    after,
                    tokens,
                ),
                Err(_) => false,
            },
        }
    }

    /// The position after the block.
    pub open spec fn end(self, bytes: Seq<u8>, pos: nat) -> nat {
        match self {
            Block::Stored(chunk) => pos + bits_to_boundary(pos) + 32 + 8 * chunk.len(),
            Block::Fixed(tokens) => tokens_end(
                fixed_literal_lengths(),
                fixed_distance_lengths(),
                tokens,
                pos,
            ),
            Block::Dynamic(lit, dist, tokens) => match spec_dynamic_tables(bytes, pos) {
                Ok((_, after)) => tokens_end(lit, dist, tokens, after),
                Err(_) => pos,
            },
        }
    }
}

/// Whether the stream holds the blocks `blocks` from `pos` on, one after
/// the other: each with its header, which marks the last block and no
/// other, and numbers the type of the block.
pub open spec fn holds_blocks(bytes: Seq<u8>, pos: nat, blocks: Seq<Block>) -> bool
    decreases blocks.len(),
{
    if blocks.len() == 0 {
        false
    } else {
        &&& pos + 3 <= bit_len(bytes)
        &&& bit_at(bytes, pos as int) == if blocks.len() == 1 {
            1nat
        } else {
            0nat
        }
        &&& number_bits(bytes, (pos + 1) as int, 2) == blocks[0].block_type()
        &&& blocks[0].held(bytes, pos + 3)
        &&& blocks.len() > 1 ==> holds_blocks(
            bytes,
            blocks[0].end(bytes, pos + 3),
            blocks.skip(1),
        )
    }
}

/// The output after the blocks `blocks`.
pub open spec fn expand_blocks(out: Seq<u8>, blocks: Seq<Block>) -> Seq<u8>
    decreases blocks.len(),
{
    if blocks.len() == 0 {
        out
    } else {
        expand_blocks(blocks[0].expand(out), blocks.skip(1))
    }
}

/// Whether the blocks `blocks` can follow the output `out`, one after the
/// other.
pub open spec fn blocks_fit(out: Seq<u8>, blocks: Seq<Block>, limit: nat) -> bool
    decreases blocks.len(),
{
    if blocks.len() == 0 {
        true
    } else {
        blocks[0].fits(out, limit) && blocks_fit(blocks[0].expand(out), blocks.skip(1), limit)
    }
}

/// The position after the blocks `blocks`.
pub open spec fn blocks_end(bytes: Seq<u8>, pos: nat, blocks: Seq<Block>) -> nat
    decreases blocks.len(),
{
    if blocks.len() == 0 {
        pos
    } else if blocks.len() == 1 {
        blocks[0].end(bytes, pos + 3)
    } else {
        blocks_end(bytes, blocks[0].end(bytes, pos + 3), blocks.skip(1))
    }
}

/// A block that the stream holds is read as that block.
proof fn lemma_block_that_is_held(
    bytes: Seq<u8>,
    pos: nat,
    block: Block,
    out: Seq<u8>,
    limit: nat,
)
    requires
        block.held(bytes, pos),
        block.fits(out, limit),
    ensures
        spec_block(bytes, pos, block.block_type(), out, limit) == Ok::<(Seq<u8>, nat), Error>(
            (block.expand(out), block.end(bytes, pos)),
        ),
{
    reveal(spec_block);
    match block {
        Block::Stored(chunk) => {},
        Block::Fixed(tokens) => {
            lemma_huffman_block_of_tokens(
                fixed_literal_lengths(),
                fixed_distance_lengths(),
                bytes,
                pos,
                tokens,
                out,
                limit,
            );
        },
        Block::Dynamic(lit, dist, tokens) => {
            let after = spec_dynamic_tables(bytes, pos)->Ok_0.1;
            lemma_huffman_block_of_tokens(lit, dist, bytes, after, tokens, out, limit);
        },
    }
}

/// A stored block of length zero adds nothing: where the length that the
/// block gives is 0 and its complement is 0xFFFF, the output stays as it
/// is, and the block ends after the two numbers.
pub proof fn lemma_empty_stored_block(bytes: Seq<u8>, pos: nat, out: Seq<u8>, limit: nat)
    requires
        holds_number(bytes, pos + bits_to_boundary(pos), 16, 0),
        holds_number(bytes, pos + bits_to_boundary(pos) + 16, 16, 0xFFFF),
        out.len() <= limit,
    ensures
        spec_block(bytes, pos, 0, out, limit) == Ok::<(Seq<u8>, nat), Error>(
            (out, pos + bits_to_boundary(pos) + 32),
        ),
{
    let empty = Block::Stored(Seq::empty());
    let first = (pos + bits_to_boundary(pos)) / 8 + 4;
    assert(bytes.subrange(first as int, first as int) == Seq::<u8>::empty());
    assert(out + Seq::<u8>::empty() == out);
    lemma_block_that_is_held(bytes, pos, empty, out, limit);
}

/// The end-of-block symbol of the fixed code is seven bits that are zero.
pub proof fn lemma_fixed_end_of_block()
    ensures
        fixed_literal_lengths()[256] == 7,
        code_of(fixed_literal_lengths(), 256) == 0,
{
    let lengths = fixed_literal_lengths();
    lemma_count_absent(lengths, 1, 288);
    lemma_count_absent(lengths, 2, 288);
    lemma_count_absent(lengths, 3, 288);
    lemma_count_absent(lengths, 4, 288);
    lemma_count_absent(lengths, 5, 288);
    lemma_count_absent(lengths, 6, 288);
    lemma_count_absent(lengths, 7, 256);
    assert(first_code(lengths, 0) == 0);
    assert(first_code(lengths, 1) == 0);
    assert(first_code(lengths, 2) == 0);
    assert(first_code(lengths, 3) == 0);
    assert(first_code(lengths, 4) == 0);
    assert(first_code(lengths, 5) == 0);
    assert(first_code(lengths, 6) == 0);
    assert(first_code(lengths, 7) == 0);
}

/// A block of the fixed code that holds the end-of-block symbol alone adds
/// nothing: where the seven bits at `pos` are zero, the output stays as it
/// is, and the block ends after them.
pub proof fn lemma_empty_fixed_block(bytes: Seq<u8>, pos: nat, out: Seq<u8>, limit: nat)
    requires
        pos + 7 <= bit_len(bytes),
        code_bits(bytes, pos as int, 7) == 0,
    ensures
        spec_block(bytes, pos, 1, out, limit) == Ok::<(Seq<u8>, nat), Error>((out, pos + 7)),
{
    lemma_fixed_end_of_block();
    let empty = Block::Fixed(Seq::empty());
    lemma_block_that_is_held(bytes, pos, empty, out, limit);
}

/// The blocks that a stream holds are read back: the stream is read as what
/// the blocks stand for, added to the output, and to the end of the last
/// block.
pub proof fn lemma_blocks_that_are_held(
    bytes: Seq<u8>,
    pos: nat,
    blocks: Seq<Block>,
    out: Seq<u8>,
    limit: nat,
)
    requires
        holds_blocks(bytes, pos, blocks),
        blocks_fit(out, blocks, limit),
    ensures
        spec_blocks(bytes, pos, out, limit) == Ok::<(Seq<u8>, nat), Error>(
            (expand_blocks(out, blocks), blocks_end(bytes, pos, blocks)),
        ),
    decreases blocks.len(),
{
    let first = blocks[0];
    let after = first.end(bytes, pos + 3);
    lemma_block_that_is_held(bytes, pos + 3, first, out, limit);
    assert(spec_one_block(bytes, pos, out, limit) == Ok::<(bool, Seq<u8>, nat), Error>(
        (blocks.len() == 1, first.expand(out), after),
    ));
    if blocks.len() > 1 {
        lemma_blocks_that_are_held(bytes, after, blocks.skip(1), first.expand(out), limit);
        assert(spec_blocks(bytes, pos, out, limit) == spec_blocks(
            bytes,
            after,
            first.expand(out),
            limit,
        ));
    } else {
        assert(blocks.skip(1).len() == 0);
        assert(expand_blocks(first.expand(out), blocks.skip(1)) == first.expand(out));
        assert(spec_blocks(bytes, pos, out, limit) == Ok::<(Seq<u8>, nat), Error>(
            (first.expand(out), after),
        ));
    }
}

/// A last block that is stored and of length zero ends the stream and adds
/// nothing: where the header at `pos` marks the last block and a stored one,
/// the length that the block gives is 0 and its complement is 0xFFFF, the
/// blocks from `pos` on leave the output as it is.
pub proof fn lemma_empty_last_stored_block(bytes: Seq<u8>, pos: nat, out: Seq<u8>, limit: nat)
    requires
        pos + 3 <= bit_len(bytes),
        bit_at(bytes, pos as int) == 1,
        number_bits(bytes, (pos + 1) as int, 2) == 0,
        holds_number(bytes, pos + 3 + bits_to_boundary(pos + 3), 16, 0),
        holds_number(bytes, pos + 3 + bits_to_boundary(pos + 3) + 16, 16, 0xFFFF),
        out.len() <= limit,
    ensures
        spec_blocks(bytes, pos, out, limit) == Ok::<(Seq<u8>, nat), Error>(
            (out, pos + 3 + bits_to_boundary(pos + 3) + 32),
        ),
{
    lemma_empty_stored_block(bytes, pos + 3, out, limit);
}

/// A stream decompresses to what was compressed into it: where a stream
/// holds blocks, whatever the blocks, the codes and the tokens are that the
/// writer chose, it decompresses to the bytes that the blocks stand for.
pub proof fn lemma_inflate_of_blocks(bytes: Seq<u8>, blocks: Seq<Block>, limit: nat)
    requires
        holds_blocks(bytes, 0, blocks),
        blocks_fit(Seq::empty(), blocks, limit),
    ensures
        spec_inflate(bytes, 0, limit) == Ok::<(Seq<u8>, nat), Error>(
            (expand_blocks(Seq::empty(), blocks), blocks_end(bytes, 0, blocks)),
        ),
{
    lemma_blocks_that_are_held(bytes, 0, blocks, Seq::empty(), limit);
}

/// A stream decompresses to what was compressed into it, or not at all:
/// where a stream holds blocks that stand for bytes, it decompresses under
/// the cap `limit` to those bytes where they fit the cap, and fails with
/// `OutputTooLarge` where they do not.
pub proof fn lemma_inflate_of_blocks_under_cap(
    bytes: Seq<u8>,
    blocks: Seq<Block>,
    big: nat,
    limit: nat,
)
    requires
        holds_blocks(bytes, 0, blocks),
        blocks_fit(Seq::empty(), blocks, big),
    ensures
        spec_inflate(bytes, 0, limit) == if expand_blocks(Seq::empty(), blocks).len() <= limit {
            Ok::<(Seq<u8>, nat), Error>(
                (expand_blocks(Seq::empty(), blocks), blocks_end(bytes, 0, blocks)),
            )
        } else {
            Err::<(Seq<u8>, nat), Error>(Error::OutputTooLarge)
        },
{
    lemma_inflate_of_blocks(bytes, blocks, big);
    lemma_inflate_under_cap(bytes, 0, big, limit);
}

} // verus!
