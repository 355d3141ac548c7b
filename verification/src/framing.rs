//! A DEFLATE stream inside a larger buffer.
//!
//! What a stream decompresses to depends on its own bits alone: with whole
//! bytes before it and any bytes after it, it decompresses to the same
//! output. On this rests the relation between a zlib stream and the
//! DEFLATE stream that it wraps.

use vstd::prelude::*;
use crate::error::Error;
use crate::bit_reader::{
    bit_at,
    bit_len,
    bits_to_boundary,
    code_bits,
    number_bits,
    lemma_bits_agree,
    lemma_number_bits_byte,
    lemma_number_bits_one,
    lemma_shift_by_bytes,
};
use crate::huffman::{decode, decode_from, symbol_at, max_length, lemma_decode_from, MAX_CODE_LENGTH};
use crate::deflate::{
    number_at,
    code_lengths_from,
    spec_code_lengths,
    spec_length_step,
    spec_compressed_lengths,
    spec_read_distance,
    spec_symbol,
    spec_huffman_block,
    spec_stored,
    spec_dynamic_tables,
    spec_block,
    spec_one_block,
    spec_blocks,
    spec_inflate,
    spec_zlib,
    length_code,
    distance_code,
    lemma_length_step,
    lemma_symbol,
    lemma_one_block,
    lemma_read_distance,
    EncodingType,
    fixed_literal_lengths,
    fixed_distance_lengths,
};
use crate::cap::{lemma_inflate_under_cap, lemma_zlib_under_cap};

verus! {

/// Whether the buffer `outer` holds the bytes of `inner` from the bit
/// position `shift` on, which is a byte boundary.
#[verifier::opaque]
pub open spec fn embeds(inner: Seq<u8>, outer: Seq<u8>, shift: nat) -> bool {
    &&& shift % 8 == 0
    &&& shift / 8 + inner.len() <= outer.len()
    &&& forall|i: int| 0 <= i < inner.len() ==> outer[shift / 8 + i] == #[trigger] inner[i]
}

/// The bits of the inner buffer are those of the outer one, `shift` bits on.
pub proof fn lemma_embedded_bits(inner: Seq<u8>, outer: Seq<u8>, shift: nat, pos: nat, n: nat)
    requires
        embeds(inner, outer, shift),
        pos + n <= bit_len(inner),
    ensures
        number_bits(outer, (pos + shift) as int, n) == number_bits(inner, pos as int, n),
        code_bits(outer, (pos + shift) as int, n) == code_bits(inner, pos as int, n),
        pos + shift + n <= bit_len(outer),
{
    reveal(embeds);
    assert forall|k: int| pos <= k < pos + n implies #[trigger] bit_at(inner, k) == bit_at(
        outer,
        k - pos + (pos + shift),
    ) by {
        assert((k + shift) / 8 == shift / 8 + k / 8);
        assert((k + shift) % 8 == k % 8);
        assert(outer[shift / 8 + k / 8] == inner[k / 8]);
    }
    lemma_bits_agree(inner, pos as int, outer, (pos + shift) as int, n);
}

/// A number that is read within the inner buffer is read alike in the outer
/// one.
pub proof fn lemma_embedded_number(inner: Seq<u8>, outer: Seq<u8>, shift: nat, pos: nat, n: nat)
    requires
        embeds(inner, outer, shift),
    ensures
        number_at(inner, pos, n) matches Ok((v, p)) ==> number_at(outer, pos + shift, n) == Ok::<
            (nat, nat),
            Error,
        >((v, p + shift)),
{
    if pos + n <= bit_len(inner) {
        lemma_embedded_bits(inner, outer, shift, pos, n);
    }
}

/// A symbol that is decoded within the inner buffer is decoded alike in the
/// outer one.
pub proof fn lemma_embedded_decode_from(
    lengths: Seq<u8>,
    inner: Seq<u8>,
    outer: Seq<u8>,
    shift: nat,
    pos: nat,
    len: nat,
)
    requires
        embeds(inner, outer, shift),
        len >= 1,
    ensures
        decode_from(lengths, inner, pos, len) is Ok ==> decode_from(
            lengths,
            outer,
            pos + shift,
            len,
        ) == decode_from(lengths, inner, pos, len),
    decreases 16 - len,
{
    if len > max_length(lengths) || len > MAX_CODE_LENGTH {
    } else if pos + len > bit_len(inner) {
    } else {
        lemma_embedded_bits(inner, outer, shift, pos, len);
        if symbol_at(lengths, len, code_bits(inner, pos as int, len)) is None {
            lemma_embedded_decode_from(lengths, inner, outer, shift, pos, len + 1);
        }
    }
}

/// A pair of length and distance that is read within the inner buffer is
/// read alike in the outer one.
pub proof fn lemma_embedded_read_distance(
    dist: Seq<u8>,
    inner: Seq<u8>,
    outer: Seq<u8>,
    shift: nat,
    pos: nat,
    symbol: nat,
)
    requires
        embeds(inner, outer, shift),
    ensures
        spec_read_distance(dist, inner, pos, symbol) matches Ok((pair, p)) ==> spec_read_distance(
            dist,
            outer,
            pos + shift,
            symbol,
        ) == Ok::<((nat, nat), nat), Error>((pair, p + shift)),
{
    if let Ok((pair, p)) = spec_read_distance(dist, inner, pos, symbol) {
        lemma_embedded_number(inner, outer, shift, pos, length_code(symbol).0);
        let (more, mid) = number_at(inner, pos, length_code(symbol).0)->Ok_0;
        lemma_embedded_decode_from(dist, inner, outer, shift, mid, 1);
        let (d, n) = decode(dist, inner, mid)->Ok_0;
        lemma_embedded_number(inner, outer, shift, mid + n, distance_code(d).0);
    }
}

/// A symbol of a Huffman block that is read within the inner buffer does
/// the same in the outer one.
pub proof fn lemma_embedded_symbol(
    lit: Seq<u8>,
    dist: Seq<u8>,
    inner: Seq<u8>,
    outer: Seq<u8>,
    shift: nat,
    pos: nat,
    out: Seq<u8>,
    limit: nat,
)
    requires
        embeds(inner, outer, shift),
    ensures
        spec_symbol(lit, dist, inner, pos, out, limit) matches Ok((done, grown, p)) ==> spec_symbol(
            lit,
            dist,
            outer,
            pos + shift,
            out,
            limit,
        ) == Ok::<(bool, Seq<u8>, nat), Error>((done, grown, p + shift)),
{
    if let Ok((done, grown, p)) = spec_symbol(lit, dist, inner, pos, out, limit) {
        lemma_embedded_decode_from(lit, inner, outer, shift, pos, 1);
        let (symbol, n) = decode(lit, inner, pos)->Ok_0;
        if symbol > 256 {
            lemma_embedded_read_distance(dist, inner, outer, shift, pos + n, symbol);
        }
    }
}

/// A Huffman block that is read within the inner buffer gives the same in
/// the outer one.
pub proof fn lemma_embedded_huffman_block(
    lit: Seq<u8>,
    dist: Seq<u8>,
    inner: Seq<u8>,
    outer: Seq<u8>,
    shift: nat,
    pos: nat,
    out: Seq<u8>,
    limit: nat,
)
    requires
        embeds(inner, outer, shift),
    ensures
        spec_huffman_block(lit, dist, inner, pos, out, limit) matches Ok((grown, p))
            ==> spec_huffman_block(lit, dist, outer, pos + shift, out, limit) == Ok::<
            (Seq<u8>, nat),
            Error,
        >((grown, p + shift)),
    decreases bit_len(inner) - pos,
{
    lemma_symbol(lit, dist, inner, pos, out, limit);
    lemma_embedded_symbol(lit, dist, inner, outer, shift, pos, out, limit);
    if let Ok((done, grown, p)) = spec_symbol(lit, dist, inner, pos, out, limit) {
        if !done {
            lemma_embedded_huffman_block(lit, dist, inner, outer, shift, p, grown, limit);
        }
    }
}

/// A stored block that is read within the inner buffer gives the same in
/// the outer one.
pub proof fn lemma_embedded_stored(
    inner: Seq<u8>,
    outer: Seq<u8>,
    shift: nat,
    pos: nat,
    out: Seq<u8>,
    limit: nat,
)
    requires
        embeds(inner, outer, shift),
    ensures
        spec_stored(inner, pos, out, limit) matches Ok((grown, p)) ==> spec_stored(
            outer,
            pos + shift,
            out,
            limit,
        ) == Ok::<(Seq<u8>, nat), Error>((grown, p + shift)),
{
    reveal(embeds);
    if let Ok((grown, p)) = spec_stored(inner, pos, out, limit) {
        let start = pos + bits_to_boundary(pos);
        lemma_shift_by_bytes(pos, shift);
        lemma_shift_by_bytes(start, shift);
        lemma_embedded_bits(inner, outer, shift, start, 16);
        lemma_embedded_bits(inner, outer, shift, start + 16, 16);
        let len = number_bits(inner, start as int, 16);
        let first = start / 8 + 4;
        let moved = first + shift / 8;
        let there = outer.subrange(moved as int, (moved + len) as int);
        let here = inner.subrange(first as int, (first + len) as int);
        assert(there =~= here) by {
            assert forall|i: int| 0 <= i < len implies #[trigger] there[i] == here[i] by {
                assert(outer[shift / 8 + (first + i)] == inner[first + i]);
            }
        }
        lemma_stored_at(inner, pos, out, limit);
        lemma_stored_at(outer, pos + shift, out, limit);
    }
}

/// What a stored block gives, where it is read to its end.
proof fn lemma_stored_at(bytes: Seq<u8>, pos: nat, out: Seq<u8>, limit: nat)
    ensures
        ({
            let start = pos + bits_to_boundary(pos);
            let len = number_bits(bytes, start as int, 16);
            let nlen = number_bits(bytes, (start + 16) as int, 16);
            let first = start / 8 + 4;
            start + 32 <= bit_len(bytes) && len + nlen == 0xFFFF && out.len() + len <= limit
                && first + len <= bytes.len() ==> spec_stored(bytes, pos, out, limit) == Ok::<
                (Seq<u8>, nat),
                Error,
            >((out + bytes.subrange(first as int, (first + len) as int), start + 32 + 8 * len))
        }),
        spec_stored(bytes, pos, out, limit) is Ok ==> ({
            let start = pos + bits_to_boundary(pos);
            let len = number_bits(bytes, start as int, 16);
            let nlen = number_bits(bytes, (start + 16) as int, 16);
            let first = start / 8 + 4;
            start + 32 <= bit_len(bytes) && len + nlen == 0xFFFF && out.len() + len <= limit
                && first + len <= bytes.len()
        }),
{
}

/// The lengths of the code-length code that are read within the inner
/// buffer are read alike in the outer one.
pub proof fn lemma_embedded_code_lengths_from(
    inner: Seq<u8>,
    outer: Seq<u8>,
    shift: nat,
    pos: nat,
    count: nat,
    acc: Seq<u8>,
)
    requires
        embeds(inner, outer, shift),
        pos + 3 * count <= bit_len(inner),
    ensures
        code_lengths_from(outer, pos + shift, count, acc) == code_lengths_from(
            inner,
            pos,
            count,
            acc,
        ),
    decreases count,
{
    if count > 0 {
        lemma_embedded_code_lengths_from(inner, outer, shift, pos, (count - 1) as nat, acc);
        lemma_embedded_bits(inner, outer, shift, (pos + 3 * (count - 1)) as nat, 3);
    }
}

/// One symbol of code lengths that is read within the inner buffer does the
/// same in the outer one.
pub proof fn lemma_embedded_length_step(
    cl: Seq<u8>,
    inner: Seq<u8>,
    outer: Seq<u8>,
    shift: nat,
    pos: nat,
    total: nat,
    acc: Seq<u8>,
)
    requires
        embeds(inner, outer, shift),
    ensures
        spec_length_step(cl, inner, pos, total, acc) matches Ok((grown, p)) ==> spec_length_step(
            cl,
            outer,
            pos + shift,
            total,
            acc,
        ) == Ok::<(Seq<u8>, nat), Error>((grown, p + shift)),
{
    if let Ok((grown, p)) = spec_length_step(cl, inner, pos, total, acc) {
        lemma_embedded_decode_from(cl, inner, outer, shift, pos, 1);
        let (symbol, n) = decode(cl, inner, pos)->Ok_0;
        if symbol > 15 {
            let extra: nat = if symbol == 16 {
                2
            } else if symbol == 17 {
                3
            } else {
                7
            };
            lemma_embedded_number(inner, outer, shift, pos + n, extra);
        }
    }
}

/// The code lengths that are read within the inner buffer are read alike in
/// the outer one.
pub proof fn lemma_embedded_compressed_lengths(
    cl: Seq<u8>,
    inner: Seq<u8>,
    outer: Seq<u8>,
    shift: nat,
    pos: nat,
    total: nat,
    acc: Seq<u8>,
)
    requires
        embeds(inner, outer, shift),
    ensures
        spec_compressed_lengths(cl, inner, pos, total, acc) matches Ok((all, p))
            ==> spec_compressed_lengths(cl, outer, pos + shift, total, acc) == Ok::<
            (Seq<u8>, nat),
            Error,
        >((all, p + shift)),
    decreases total - acc.len(),
{
    if acc.len() < total {
        lemma_length_step(cl, inner, pos, total, acc);
        lemma_embedded_length_step(cl, inner, outer, shift, pos, total, acc);
        if let Ok((grown, p)) = spec_length_step(cl, inner, pos, total, acc) {
            lemma_embedded_compressed_lengths(cl, inner, outer, shift, p, total, grown);
        }
    }
}

/// The tables of a dynamic block that are read within the inner buffer are
/// read alike in the outer one.
pub proof fn lemma_embedded_dynamic_tables(inner: Seq<u8>, outer: Seq<u8>, shift: nat, pos: nat)
    requires
        embeds(inner, outer, shift),
    ensures
        spec_dynamic_tables(inner, pos) matches Ok((tables, p)) ==> spec_dynamic_tables(
            outer,
            pos + shift,
        ) == Ok::<((Seq<u8>, Seq<u8>), nat), Error>((tables, p + shift)),
{
    if let Ok((tables, p)) = spec_dynamic_tables(inner, pos) {
        lemma_embedded_bits(inner, outer, shift, pos, 5);
        lemma_embedded_bits(inner, outer, shift, pos + 5, 5);
        lemma_embedded_bits(inner, outer, shift, pos + 10, 4);
        let hlit = number_bits(inner, pos as int, 5) + 257;
        let hdist = number_bits(inner, (pos + 5) as int, 5) + 1;
        let hclen = number_bits(inner, (pos + 10) as int, 4) + 4;
        lemma_embedded_code_lengths_from(
            inner,
            outer,
            shift,
            pos + 14,
            hclen,
            Seq::new(19, |i: int| 0u8),
        );
        let (cl, mid) = spec_code_lengths(inner, pos + 14, hclen)->Ok_0;
        lemma_embedded_compressed_lengths(cl, inner, outer, shift, mid, hlit + hdist, Seq::empty());
    }
}

/// A block that is read within the inner buffer gives the same in the outer
/// one.
pub proof fn lemma_embedded_block(
    inner: Seq<u8>,
    outer: Seq<u8>,
    shift: nat,
    pos: nat,
    btype: nat,
    out: Seq<u8>,
    limit: nat,
)
    requires
        embeds(inner, outer, shift),
    ensures
        spec_block(inner, pos, btype, out, limit) matches Ok((grown, p)) ==> spec_block(
            outer,
            pos + shift,
            btype,
            out,
            limit,
        ) == Ok::<(Seq<u8>, nat), Error>((grown, p + shift)),
{
    reveal(spec_block);
    match EncodingType::spec_from(btype) {
        None => {},
        Some(EncodingType::NoCompression) => {
            lemma_embedded_stored(inner, outer, shift, pos, out, limit);
        },
        Some(EncodingType::FixedHuffman) => {
            lemma_embedded_huffman_block(
                fixed_literal_lengths(),
                fixed_distance_lengths(),
                inner,
                outer,
                shift,
                pos,
                out,
                limit,
            );
        },
        Some(EncodingType::DynamicHuffman) => {
            lemma_embedded_dynamic_tables(inner, outer, shift, pos);
            if let Ok(((lit, dist), after)) = spec_dynamic_tables(inner, pos) {
                lemma_embedded_huffman_block(lit, dist, inner, outer, shift, after, out, limit);
            }
        },
    }
}

/// One block, header and all, that is read within the inner buffer gives
/// the same in the outer one.
pub proof fn lemma_embedded_one_block(
    inner: Seq<u8>,
    outer: Seq<u8>,
    shift: nat,
    pos: nat,
    out: Seq<u8>,
    limit: nat,
)
    requires
        embeds(inner, outer, shift),
    ensures
        spec_one_block(inner, pos, out, limit) matches Ok((last, grown, p)) ==> spec_one_block(
            outer,
            pos + shift,
            out,
            limit,
        ) == Ok::<(bool, Seq<u8>, nat), Error>((last, grown, p + shift)),
{
    if pos + 3 <= bit_len(inner) {
        lemma_embedded_bits(inner, outer, shift, pos, 1);
        lemma_embedded_bits(inner, outer, shift, pos + 1, 2);
        lemma_number_bits_one(inner, pos as int);
        lemma_number_bits_one(outer, (pos + shift) as int);
        lemma_embedded_block(
            inner,
            outer,
            shift,
            pos + 3,
            number_bits(inner, (pos + 1) as int, 2),
            out,
            limit,
        );
    }
}

/// The blocks that are read within the inner buffer give the same in the
/// outer one.
pub proof fn lemma_embedded_blocks(
    inner: Seq<u8>,
    outer: Seq<u8>,
    shift: nat,
    pos: nat,
    out: Seq<u8>,
    limit: nat,
)
    requires
        embeds(inner, outer, shift),
    ensures
        spec_blocks(inner, pos, out, limit) matches Ok((grown, p)) ==> spec_blocks(
            outer,
            pos + shift,
            out,
            limit,
        ) == Ok::<(Seq<u8>, nat), Error>((grown, p + shift)) && p <= bit_len(inner),
    decreases bit_len(inner) - pos,
{
    lemma_one_block(inner, pos, out, limit);
    lemma_embedded_one_block(inner, outer, shift, pos, out, limit);
    if let Ok((last, grown, p)) = spec_one_block(inner, pos, out, limit) {
        if !last {
            lemma_embedded_blocks(inner, outer, shift, p, grown, limit);
        }
    }
}

/// A DEFLATE stream decompresses, inside a larger buffer, to what it
/// decompresses to alone.
pub proof fn lemma_embedded_inflate(inner: Seq<u8>, outer: Seq<u8>, shift: nat, limit: nat)
    requires
        embeds(inner, outer, shift),
    ensures
        spec_inflate(inner, 0, limit) matches Ok((out, end)) ==> spec_inflate(outer, shift, limit)
            == Ok::<(Seq<u8>, nat), Error>((out, end + shift)) && end <= bit_len(inner),
{
    lemma_embedded_blocks(inner, outer, shift, 0, Seq::empty(), limit);
}

/// Whether `CMF` and `FLG` are a zlib header that names the method 8 and
/// checks out.
pub open spec fn zlib_header(cmf: u8, flg: u8) -> bool {
    cmf % 16 == 8 && (cmf * 256 + flg) % 31 == 0
}

/// Whether a zlib header announces the id of a preset dictionary.
pub open spec fn has_dictionary(flg: u8) -> bool {
    (flg / 32) % 2 == 1
}

/// The place of the DEFLATE stream in a zlib stream with the flag byte
/// `flg`, in bits: after the two bytes of the header, and after the four
/// bytes of the dictionary id where the header announces one.
pub open spec fn zlib_body(flg: u8) -> nat {
    if has_dictionary(flg) {
        48
    } else {
        16
    }
}

/// What a zlib stream at the start of `bytes` gives, where its header
/// checks out and its body and trailer are there.
proof fn lemma_zlib_of_body(bytes: Seq<u8>, limit: nat, out: Seq<u8>, end: nat)
    requires
        bytes.len() >= 2,
        zlib_header(bytes[0], bytes[1]),
        spec_inflate(bytes, zlib_body(bytes[1]), limit) == Ok::<(Seq<u8>, nat), Error>((out, end)),
        end + bits_to_boundary(end) + 32 <= bit_len(bytes),
    ensures
        spec_zlib(bytes, 0, limit) == Ok::<(Seq<u8>, nat), Error>(
            (out, end + bits_to_boundary(end) + 32),
        ),
{
    lemma_number_bits_byte(bytes, 0);
    lemma_number_bits_byte(bytes, 1);
}

/// Where a stream ends within its buffer, and four bytes or more follow
/// the stream in the outer one, the padding after the stream and four bytes
/// are there in the outer one.
proof fn lemma_trailer_fits(outer: Seq<u8>, inner: Seq<u8>, shift: nat, end: nat)
    requires
        shift % 8 == 0,
        outer.len() >= shift / 8 + inner.len() + 4,
        end <= bit_len(inner),
    ensures
        end + shift + bits_to_boundary(end + shift) + 32 <= bit_len(outer),
{
    lemma_shift_by_bytes(end, shift);
    assert(end + bits_to_boundary(end) <= bit_len(inner));
}

/// A zlib stream gives what the DEFLATE stream in it gives: where the
/// header checks out, the buffer holds the stream at its place, and four
/// bytes or more follow the stream, the buffer decompresses as a zlib stream
/// to what the stream alone decompresses to.
pub proof fn lemma_zlib_is_inflate_of_embedded(
    whole: Seq<u8>,
    stream: Seq<u8>,
    limit: nat,
    out: Seq<u8>,
    end: nat,
)
    requires
        whole.len() >= 2,
        zlib_header(whole[0], whole[1]),
        embeds(stream, whole, zlib_body(whole[1])),
        whole.len() >= zlib_body(whole[1]) / 8 + stream.len() + 4,
        spec_inflate(stream, 0, limit) == Ok::<(Seq<u8>, nat), Error>((out, end)),
    ensures
        spec_zlib(whole, 0, limit) == Ok::<(Seq<u8>, nat), Error>(
            (
                out,
                end + zlib_body(whole[1]) + bits_to_boundary(end + zlib_body(whole[1])) + 32,
            ),
        ),
{
    let shift = zlib_body(whole[1]);
    lemma_embedded_inflate(stream, whole, shift, limit);
    lemma_trailer_fits(whole, stream, shift, end);
    lemma_zlib_of_body(whole, limit, out, end + shift);
}

/// A zlib stream gives what the DEFLATE stream that it wraps gives: for a
/// header that checks out, with the four bytes of a dictionary id after it
/// where it announces one, and with four bytes of checksum or more after the
/// stream, the whole decompresses to what the stream alone decompresses to.
pub proof fn lemma_zlib_is_inflate_of_wrapped(
    cmf: u8,
    flg: u8,
    dictionary: Seq<u8>,
    stream: Seq<u8>,
    trailer: Seq<u8>,
    limit: nat,
)
    requires
        zlib_header(cmf, flg),
        dictionary.len() == zlib_body(flg) / 8 - 2,
        trailer.len() >= 4,
        spec_inflate(stream, 0, limit) is Ok,
    ensures
        spec_zlib(seq![cmf, flg] + dictionary + stream + trailer, 0, limit) matches Ok((out, end))
            && out == spec_inflate(stream, 0, limit)->Ok_0.0,
{
    let (found, stop) = spec_inflate(stream, 0, limit)->Ok_0;
    let front = seq![cmf, flg] + dictionary;
    let whole = front + stream + trailer;
    assert(front.len() == zlib_body(flg) / 8);
    assert(whole[0] == cmf);
    assert(whole[1] == flg);
    assert forall|i: int| 0 <= i < stream.len() implies whole[front.len() + i]
        == #[trigger] stream[i] by {}
    assert(embeds(stream, whole, zlib_body(flg))) by {
        reveal(embeds);
    }
    lemma_zlib_is_inflate_of_embedded(whole, stream, limit, found, stop);
}

/// A zlib stream gives what the DEFLATE stream that it wraps gives, under
/// every cap: for a stream that decompresses under some cap, wrapped as
/// above, the whole decompresses under the cap `limit` to the bytes that the
/// stream alone decompresses to under it, and fails as the stream alone
/// fails, which is with `OutputTooLarge` where those bytes pass the cap.
pub proof fn lemma_zlib_is_inflate_under_every_cap(
    cmf: u8,
    flg: u8,
    dictionary: Seq<u8>,
    stream: Seq<u8>,
    trailer: Seq<u8>,
    big: nat,
    limit: nat,
)
    requires
        zlib_header(cmf, flg),
        dictionary.len() == zlib_body(flg) / 8 - 2,
        trailer.len() >= 4,
        spec_inflate(stream, 0, big) is Ok,
    ensures
        match spec_inflate(stream, 0, limit) {
            Ok((out, end)) => spec_zlib(seq![cmf, flg] + dictionary + stream + trailer, 0, limit)
                is Ok && spec_zlib(
                seq![cmf, flg] + dictionary + stream + trailer,
                0,
                limit,
            )->Ok_0.0 == out,
            Err(e) => spec_zlib(seq![cmf, flg] + dictionary + stream + trailer, 0, limit) == Err::<
                (Seq<u8>, nat),
                Error,
            >(e),
        },
{
    let whole = seq![cmf, flg] + dictionary + stream + trailer;
    lemma_zlib_is_inflate_of_wrapped(cmf, flg, dictionary, stream, trailer, big);
    lemma_inflate_under_cap(stream, 0, big, limit);
    lemma_zlib_under_cap(whole, 0, big, limit);
}

/// The most bytes that a stored block can hold.
pub open spec fn stored_chunk() -> nat {
    0xFFFF
}

/// A stored block that holds `chunk`: the header byte, whose first bit
/// marks the last block and whose next two bits are the block type 0, the
/// length and its complement as numbers of 16 bits, and the bytes.
pub open spec fn stored_block(last: bool, chunk: Seq<u8>) -> Seq<u8> {
    seq![
        if last {
            1u8
        } else {
            0u8
        },
        (chunk.len() % 256) as u8,
        (chunk.len() / 256) as u8,
        ((0xFFFF - chunk.len()) % 256) as u8,
        ((0xFFFF - chunk.len()) / 256) as u8,
    ] + chunk
}

/// The DEFLATE stream that holds `bytes` in stored blocks, each but the last
/// one full.
pub open spec fn stored_stream(bytes: Seq<u8>) -> Seq<u8>
    decreases bytes.len(),
{
    if bytes.len() <= stored_chunk() {
        stored_block(true, bytes)
    } else {
        stored_block(false, bytes.take(stored_chunk() as int)) + stored_stream(
            bytes.skip(stored_chunk() as int),
        )
    }
}

/// The first three bits of a byte that is 0 or 1: the bit of the byte, and a
/// block type of 0.
proof fn lemma_stored_header(bytes: Seq<u8>)
    requires
        bytes.len() >= 1,
        bytes[0] <= 1,
    ensures
        bit_at(bytes, 0) == bytes[0],
        number_bits(bytes, 1, 2) == 0,
{
    let b = bytes[0];
    assert((b >> 0u8) & 1 == b && (b >> 1u8) & 1 == 0 && (b >> 2u8) & 1 == 0) by (bit_vector)
        requires
            b <= 1,
    ;
    assert(bit_at(bytes, 0) == b);
    assert(bit_at(bytes, 1) == 0);
    assert(bit_at(bytes, 2) == 0);
    vstd::arithmetic::power2::lemma2_to64();
    assert(number_bits(bytes, 1, 0) == 0);
    assert(number_bits(bytes, 1, 1) == number_bits(bytes, 1, 0) + bit_at(bytes, 1 + 1 - 1)
        * vstd::arithmetic::power2::pow2(0));
    assert(number_bits(bytes, 1, 2) == number_bits(bytes, 1, 1) + bit_at(bytes, 1 + 2 - 1)
        * vstd::arithmetic::power2::pow2(1));
}

/// Sixteen bits at a byte boundary, read as a number, are the byte there
/// and 256 times the next.
proof fn lemma_number_of_two_bytes(bytes: Seq<u8>, index: int)
    requires
        0 <= index,
        index + 1 < bytes.len(),
    ensures
        number_bits(bytes, 8 * index, 16) == bytes[index] + 256 * bytes[index + 1],
{
    crate::bit_reader::lemma_number_bits_split(bytes, 8 * index, 8, 8);
    lemma_number_bits_byte(bytes, index);
    lemma_number_bits_byte(bytes, index + 1);
    vstd::arithmetic::power2::lemma2_to64();
    assert(8 * index + 8 == 8 * (index + 1));
}

/// A stored block at the start of a buffer is read as the bytes that it
/// holds.
proof fn lemma_stored_block(last: bool, chunk: Seq<u8>, rest: Seq<u8>, out: Seq<u8>, limit: nat)
    requires
        chunk.len() <= stored_chunk(),
        out.len() + chunk.len() <= limit,
    ensures
        spec_one_block(stored_block(last, chunk) + rest, 0, out, limit) == Ok::<
            (bool, Seq<u8>, nat),
            Error,
        >((last, out + chunk, 8 * (5 + chunk.len()))),
{
    let bytes = stored_block(last, chunk) + rest;
    let n = chunk.len();
    assert(bytes.len() == 5 + n + rest.len());
    assert(bytes[0] == if last {
        1u8
    } else {
        0u8
    });
    assert(bytes[1] == (n % 256) as u8);
    assert(bytes[2] == (n / 256) as u8);
    assert(bytes[3] == ((0xFFFF - n) % 256) as u8);
    assert(bytes[4] == ((0xFFFF - n) / 256) as u8);
    lemma_stored_header(bytes);
    lemma_number_of_two_bytes(bytes, 1);
    lemma_number_of_two_bytes(bytes, 3);
    assert(bits_to_boundary(3) == 5);
    assert(number_bits(bytes, 8, 16) == n);
    assert(number_bits(bytes, 24, 16) == 0xFFFF - n);
    assert(bytes.subrange(5, (5 + n) as int) =~= chunk);
    lemma_stored_block_read(bytes, out, limit, n);
}

/// What a stored block at the start of a buffer gives, where its fields are
/// known.
proof fn lemma_stored_block_read(bytes: Seq<u8>, out: Seq<u8>, limit: nat, n: nat)
    requires
        bytes.len() >= 5 + n,
        number_bits(bytes, 1, 2) == 0,
        number_bits(bytes, 8, 16) == n,
        number_bits(bytes, 24, 16) == 0xFFFF - n,
        out.len() + n <= limit,
    ensures
        spec_one_block(bytes, 0, out, limit) == Ok::<(bool, Seq<u8>, nat), Error>(
            (bit_at(bytes, 0) == 1, out + bytes.subrange(5, (5 + n) as int), 8 * (5 + n)),
        ),
{
    reveal(spec_block);
    assert(bits_to_boundary(3) == 5);
    assert(EncodingType::spec_from(0) == Some(EncodingType::NoCompression));
}

/// Bytes that are stored are read back: the DEFLATE stream that holds them
/// in stored blocks decompresses to them, after whatever output there is,
/// where the limit on the output allows it.
pub proof fn lemma_blocks_of_stored_stream(bytes: Seq<u8>, out: Seq<u8>, limit: nat)
    requires
        out.len() + bytes.len() <= limit,
    ensures
        spec_blocks(stored_stream(bytes), 0, out, limit) == Ok::<(Seq<u8>, nat), Error>(
            (out + bytes, bit_len(stored_stream(bytes))),
        ),
    decreases bytes.len(),
{
    if bytes.len() <= stored_chunk() {
        lemma_stored_block(true, bytes, Seq::empty(), out, limit);
        assert(stored_block(true, bytes) + Seq::<u8>::empty() =~= stored_block(true, bytes));
    } else {
        let chunk = bytes.take(stored_chunk() as int);
        let later = bytes.skip(stored_chunk() as int);
        let rest = stored_stream(later);
        let whole = stored_block(false, chunk) + rest;
        let shift: nat = 8 * (5 + chunk.len());
        lemma_stored_block(false, chunk, rest, out, limit);
        lemma_blocks_of_stored_stream(later, out + chunk, limit);
        assert(embeds(rest, whole, shift)) by {
            reveal(embeds);
            assert(shift / 8 == 5 + chunk.len());
            assert forall|i: int| 0 <= i < rest.len() implies whole[shift / 8 + i]
                == #[trigger] rest[i] by {}
        }
        lemma_embedded_blocks(rest, whole, shift, 0, out + chunk, limit);
        assert((out + chunk) + later =~= out + bytes);
        assert(bit_len(whole) == shift + bit_len(rest));
    }
}

/// For the encoder that stores: what it makes of any bytes decompresses to
/// those bytes, where the limit on the output allows it.
pub proof fn lemma_inflate_of_stored_stream(bytes: Seq<u8>, limit: nat)
    requires
        bytes.len() <= limit,
    ensures
        spec_inflate(stored_stream(bytes), 0, limit) == Ok::<(Seq<u8>, nat), Error>(
            (bytes, bit_len(stored_stream(bytes))),
        ),
{
    lemma_blocks_of_stored_stream(bytes, Seq::empty(), limit);
    assert(Seq::<u8>::empty() + bytes =~= bytes);
}

} // verus!
