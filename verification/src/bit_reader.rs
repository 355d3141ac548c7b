//! Bit-granular reads over a byte buffer, in the two orders DEFLATE uses.
//!
//! The stream of bits of a buffer starts at the least significant bit of its
//! first byte. A reader is a buffer and a position in that stream.

use vstd::prelude::*;
use vstd::arithmetic::power2::{pow2, lemma_pow2_unfold, lemma2_to64, lemma2_to64_rest};
use crate::error::{Error, same_bytes};

verus! {

/// Bit `i` of a byte, counted from the least significant one.
pub open spec fn bit_of(byte: u8, i: int) -> nat {
    ((byte >> (i as u8)) & 1) as nat
}

/// Bit `k` of the stream of bits that `bytes` holds.
pub open spec fn bit_at(bytes: Seq<u8>, k: int) -> nat {
    bit_of(bytes[k / 8], k % 8)
}

/// The number of bits in the stream.
pub open spec fn bit_len(bytes: Seq<u8>) -> nat {
    8 * bytes.len()
}

/// The `n` bits from `pos` on, read as a Huffman code: the first bit of the
/// stream is the most significant bit of the value.
pub open spec fn code_bits(bytes: Seq<u8>, pos: int, n: nat) -> nat
    decreases n,
{
    if n == 0 {
        0
    } else {
        2 * code_bits(bytes, pos, (n - 1) as nat) + bit_at(bytes, pos + n - 1)
    }
}

/// The `n` bits from `pos` on, read as a number: the first bit of the stream
/// is the least significant bit of the value.
pub open spec fn number_bits(bytes: Seq<u8>, pos: int, n: nat) -> nat
    decreases n,
{
    if n == 0 {
        0
    } else {
        number_bits(bytes, pos, (n - 1) as nat) + bit_at(bytes, pos + n - 1) * pow2((n - 1) as nat)
    }
}

/// The bits still to be crossed before the next byte boundary.
pub open spec fn bits_to_boundary(pos: nat) -> nat {
    ((8 - pos % 8) % 8) as nat
}

/// A bit is 0 or 1.
pub proof fn lemma_bit_of_bound(byte: u8, i: int)
    requires
        0 <= i < 8,
    ensures
        bit_of(byte, i) <= 1,
{
    let s: u8 = i as u8;
    assert((byte >> s) & 1 <= 1) by (bit_vector);
}

/// A code of `n` bits is below `2^n`.
pub proof fn lemma_code_bits_bound(bytes: Seq<u8>, pos: int, n: nat)
    requires
        0 <= pos,
    ensures
        code_bits(bytes, pos, n) < pow2(n),
    decreases n,
{
    if n == 0 {
        lemma2_to64();
    } else {
        lemma_code_bits_bound(bytes, pos, (n - 1) as nat);
        lemma_bit_of_bound(bytes[(pos + n - 1) / 8], (pos + n - 1) % 8);
        lemma_pow2_unfold(n);
    }
}

/// A number of `n` bits is below `2^n`.
pub proof fn lemma_number_bits_bound(bytes: Seq<u8>, pos: int, n: nat)
    requires
        0 <= pos,
    ensures
        number_bits(bytes, pos, n) < pow2(n),
    decreases n,
{
    if n == 0 {
        lemma2_to64();
    } else {
        lemma_number_bits_bound(bytes, pos, (n - 1) as nat);
        lemma_bit_of_bound(bytes[(pos + n - 1) / 8], (pos + n - 1) % 8);
        lemma_pow2_unfold(n);
        let b = bit_at(bytes, pos + n - 1);
        let w = pow2((n - 1) as nat);
        assert(b * w <= w) by (nonlinear_arith)
            requires
                b <= 1,
        ;
    }
}

/// Both readings depend on the bits read alone: two buffers that agree on
/// them, at positions that may differ, give the same values.
pub proof fn lemma_bits_agree(a: Seq<u8>, pa: int, b: Seq<u8>, pb: int, n: nat)
    requires
        forall|k: int| pa <= k < pa + n ==> #[trigger] bit_at(a, k) == bit_at(b, k - pa + pb),
    ensures
        code_bits(a, pa, n) == code_bits(b, pb, n),
        number_bits(a, pa, n) == number_bits(b, pb, n),
    decreases n,
{
    if n > 0 {
        lemma_bits_agree(a, pa, b, pb, (n - 1) as nat);
        assert(bit_at(a, pa + n - 1) == bit_at(b, (pa + n - 1) - pa + pb));
    }
}

/// A byte is the number that its eight bits spell.
pub proof fn lemma_byte_is_number(byte: u8)
    ensures
        byte == bit_of(byte, 0) + 2 * bit_of(byte, 1) + 4 * bit_of(byte, 2) + 8 * bit_of(byte, 3)
            + 16 * bit_of(byte, 4) + 32 * bit_of(byte, 5) + 64 * bit_of(byte, 6) + 128 * bit_of(
            byte,
            7,
        ),
{
    assert(byte == ((byte >> 0u8) & 1) + 2 * ((byte >> 1u8) & 1) + 4 * ((byte >> 2u8) & 1) + 8 * ((
    byte >> 3u8) & 1) + 16 * ((byte >> 4u8) & 1) + 32 * ((byte >> 5u8) & 1) + 64 * ((byte >> 6u8)
        & 1) + 128 * ((byte >> 7u8) & 1)) by (bit_vector);
}

/// Eight bits read as a number at a byte boundary are the byte itself.
pub proof fn lemma_number_bits_byte(bytes: Seq<u8>, index: int)
    requires
        0 <= index < bytes.len(),
    ensures
        number_bits(bytes, 8 * index, 8) == bytes[index],
{
    let p = 8 * index;
    let b = bytes[index];
    lemma2_to64();
    lemma_byte_is_number(b);
    assert forall|k: int| p <= k < p + 8 implies #[trigger] bit_at(bytes, k) == bit_of(b, k - p) by {
        assert(k / 8 == index);
        assert(k % 8 == k - p);
    }
    assert(number_bits(bytes, p, 0) == 0);
    assert(number_bits(bytes, p, 1) == number_bits(bytes, p, 0) + bit_at(bytes, p + 1 - 1) * pow2(0));
    assert(number_bits(bytes, p, 2) == number_bits(bytes, p, 1) + bit_at(bytes, p + 2 - 1) * pow2(1));
    assert(number_bits(bytes, p, 3) == number_bits(bytes, p, 2) + bit_at(bytes, p + 3 - 1) * pow2(2));
    assert(number_bits(bytes, p, 4) == number_bits(bytes, p, 3) + bit_at(bytes, p + 4 - 1) * pow2(3));
    assert(number_bits(bytes, p, 5) == number_bits(bytes, p, 4) + bit_at(bytes, p + 5 - 1) * pow2(4));
    assert(number_bits(bytes, p, 6) == number_bits(bytes, p, 5) + bit_at(bytes, p + 6 - 1) * pow2(5));
    assert(number_bits(bytes, p, 7) == number_bits(bytes, p, 6) + bit_at(bytes, p + 7 - 1) * pow2(6));
    assert(number_bits(bytes, p, 8) == number_bits(bytes, p, 7) + bit_at(bytes, p + 8 - 1) * pow2(7));
}

/// A number of `m + n` bits is its low `m` bits plus `2^m` times the `n` bits
/// that follow.
pub proof fn lemma_number_bits_split(bytes: Seq<u8>, pos: int, m: nat, n: nat)
    ensures
        number_bits(bytes, pos, m + n) == number_bits(bytes, pos, m) + pow2(m) * number_bits(
            bytes,
            pos + m,
            n,
        ),
    decreases n,
{
    let wm = pow2(m);
    if n == 0 {
        assert(number_bits(bytes, pos + m, 0) == 0);
        assert(wm * 0 == 0) by (nonlinear_arith);
    } else {
        let k = (n - 1) as nat;
        lemma_number_bits_split(bytes, pos, m, k);
        vstd::arithmetic::power2::lemma_pow2_adds(m, k);
        let hi = number_bits(bytes, pos + m, k);
        let b = bit_at(bytes, pos + m + n - 1);
        let wn = pow2(k);
        assert(wm * (hi + b * wn) == wm * hi + b * (wm * wn)) by (nonlinear_arith);
        assert(number_bits(bytes, pos + m, n) == hi + b * wn);
        assert(((m + n) - 1) as nat == m + k);
        assert(number_bits(bytes, pos, m + n) == number_bits(bytes, pos, m + k) + bit_at(
            bytes,
            pos + (m + n) - 1,
        ) * pow2(m + k));
    }
}

/// No bits read, in either order, are the number 0.
pub proof fn lemma_no_bits(bytes: Seq<u8>, pos: int)
    ensures
        number_bits(bytes, pos, 0) == 0,
        code_bits(bytes, pos, 0) == 0,
{
}

/// One bit read, in either order, is the bit.
pub proof fn lemma_number_bits_one(bytes: Seq<u8>, pos: int)
    ensures
        number_bits(bytes, pos, 1) == bit_at(bytes, pos),
        code_bits(bytes, pos, 1) == bit_at(bytes, pos),
{
    lemma2_to64();
    assert(number_bits(bytes, pos, 0) == 0);
    assert(code_bits(bytes, pos, 0) == 0);
    assert(number_bits(bytes, pos, 1) == number_bits(bytes, pos, 0) + bit_at(bytes, pos + 1 - 1)
        * pow2(0));
    assert(code_bits(bytes, pos, 1) == 2 * code_bits(bytes, pos, 0) + bit_at(bytes, pos + 1 - 1));
}

/// Whole bytes before a position do not change what is left to its byte
/// boundary, and add their number to the index of its byte.
pub proof fn lemma_shift_by_bytes(pos: nat, shift: nat)
    requires
        shift % 8 == 0,
    ensures
        bits_to_boundary(pos + shift) == bits_to_boundary(pos),
        (pos + shift) / 8 == pos / 8 + shift / 8,
        (pos + shift) % 8 == pos % 8,
{
}

/// What a reader of bits offers: a buffer, a position in its stream of bits,
/// and reads that advance the position.
pub trait ReadBits {
    /// The bytes under the reader.
    spec fn stream(&self) -> Seq<u8>;

    /// The number of bits read so far.
    spec fn position(&self) -> nat;

    /// Reads `len` bits as a Huffman code. Fails with `UnexpectedEof`, and
    /// reads nothing, where fewer than `len` bits are left.
    fn read_bits(&mut self, len: usize) -> (r: Result<u64, Error>)
        requires
            len <= 64,
        ensures
            final(self).stream() == old(self).stream(),
            old(self).position() + len <= bit_len(old(self).stream()) ==> r == Ok::<u64, Error>(
                code_bits(old(self).stream(), old(self).position() as int, len as nat) as u64,
            ) && final(self).position() == old(self).position() + len,
            old(self).position() + len > bit_len(old(self).stream()) ==> r == Err::<u64, Error>(
                Error::UnexpectedEof,
            ) && final(self).position() == old(self).position(),
    ;

    /// Passes over the bits left in the current byte, so that the reader
    /// stands at a byte boundary, and returns the number of bits passed
    /// over: none where it stood at a boundary already.
    fn read_remaining_byte(&mut self) -> (r: Result<u8, Error>)
        ensures
            final(self).stream() == old(self).stream(),
            final(self).position() == old(self).position() + bits_to_boundary(
                old(self).position(),
            ),
            final(self).position() % 8 == 0,
            r == Ok::<u8, Error>(bits_to_boundary(old(self).position()) as u8),
    ;

    /// Reads `len` bits as a number. Fails with `UnexpectedEof`, and reads
    /// nothing, where fewer than `len` bits are left.
    fn read_number(&mut self, len: usize) -> (r: Result<u64, Error>)
        requires
            len <= 64,
        ensures
            final(self).stream() == old(self).stream(),
            old(self).position() + len <= bit_len(old(self).stream()) ==> r == Ok::<u64, Error>(
                number_bits(old(self).stream(), old(self).position() as int, len as nat) as u64,
            ) && final(self).position() == old(self).position() + len,
            old(self).position() + len > bit_len(old(self).stream()) ==> r == Err::<u64, Error>(
                Error::UnexpectedEof,
            ) && final(self).position() == old(self).position(),
    ;
}

/// A reader of bits over an owned buffer.
pub struct BitReader {
    data: Vec<u8>,
    byte: usize,
    bit: u8,
}

impl BitReader {
    #[verifier::type_invariant]
    spec fn inv(self) -> bool {
        &&& self.byte <= self.data.len()
        &&& self.bit < 8
        &&& self.byte == self.data.len() ==> self.bit == 0
    }

    /// The bytes under the reader.
    pub closed spec fn bytes(&self) -> Seq<u8> {
        self.data@
    }

    /// The number of bits read so far.
    pub closed spec fn pos(&self) -> nat {
        let p = (8 * self.byte + self.bit) as nat;
        if p <= 8 * self.data@.len() {
            p
        } else {
            8 * self.data@.len()
        }
    }

    /// A reader never stands beyond the end of its stream.
    pub proof fn lemma_position_bound(&self)
        ensures
            self.position() <= bit_len(self.stream()),
    {
    }

    /// A reader at the start of `data`.
    pub fn new(data: Vec<u8>) -> (r: BitReader)
        ensures
            r.stream() == data@,
            r.position() == 0,
    {
        BitReader { data, byte: 0, bit: 0 }
    }

    /// Whether `len` more bits are left.
    fn has_bits(&self, len: usize) -> (r: bool)
        requires
            len <= 64,
        ensures
            r == (self.position() + len <= bit_len(self.stream())),
    {
        proof {
            use_type_invariant(self);
        }
        let needed: usize = (self.bit as usize + len + 7) / 8;
        needed <= self.data.len() - self.byte
    }

    /// Reads one bit that is known to be there.
    fn next_bit(&mut self) -> (r: u64)
        requires
            old(self).position() < bit_len(old(self).stream()),
        ensures
            final(self).stream() == old(self).stream(),
            final(self).position() == old(self).position() + 1,
            r == bit_at(old(self).stream(), old(self).position() as int),
            r <= 1,
    {
        proof {
            use_type_invariant(&*self);
            lemma_bit_of_bound(self.data@[self.byte as int], self.bit as int);
        }
        let value: u8 = (self.data[self.byte] >> self.bit) & 1;
        if self.bit == 7 {
            self.bit = 0;
            self.byte = self.byte + 1;
        } else {
            self.bit = self.bit + 1;
        }
        value as u64
    }

    /// Moves to the next byte boundary and returns the number of bits passed
    /// over.
    pub fn align_to_byte(&mut self) -> (r: u8)
        ensures
            final(self).stream() == old(self).stream(),
            r == bits_to_boundary(old(self).position()),
            final(self).position() == old(self).position() + r,
            final(self).position() % 8 == 0,
    {
        proof {
            use_type_invariant(&*self);
        }
        if self.bit == 0 {
            0
        } else {
            let skipped: u8 = 8 - self.bit;
            self.bit = 0;
            self.byte = self.byte + 1;
            skipped
        }
    }

    /// Reads up to `count` whole bytes: all of them, or those that are left
    /// where the buffer ends first. Fails with `Misaligned`, and reads
    /// nothing, where the reader is not at a byte boundary.
    pub fn read(&mut self, count: usize) -> (r: Result<Vec<u8>, Error>)
        ensures
            final(self).stream() == old(self).stream(),
            old(self).position() % 8 != 0 ==> r == Err::<Vec<u8>, Error>(Error::Misaligned)
                && final(self).position() == old(self).position(),
            old(self).position() % 8 == 0 ==> r is Ok && ({
                let start = (old(self).position() / 8) as int;
                let left = old(self).stream().len() - start;
                let taken = if count <= left {
                    count as int
                } else {
                    left
                };
                &&& r->Ok_0@ == old(self).stream().subrange(start, start + taken)
                &&& final(self).position() == old(self).position() + 8 * taken
            }),
    {
        proof {
            use_type_invariant(&*self);
        }
        if self.bit != 0 {
            return Err(Error::Misaligned);
        }
        let left: usize = self.data.len() - self.byte;
        let taken: usize = if count <= left {
            count
        } else {
            left
        };
        let start: usize = self.byte;
        let mut out: Vec<u8> = Vec::new();
        let mut i: usize = 0;
        while i < taken
            invariant
                i <= taken,
                start + taken <= self.data.len(),
                out@ == self.data@.subrange(start as int, start + i),
            decreases taken - i,
        {
            out.push(self.data[start + i]);
            i = i + 1;
        }
        self.byte = start + taken;
        Ok(out)
    }

    /// Whether the reader stands at a byte boundary.
    pub fn is_aligned(&self) -> (r: bool)
        ensures
            r == (self.position() % 8 == 0),
    {
        proof {
            use_type_invariant(self);
        }
        self.bit == 0
    }

    /// Reads one whole byte. Fails with `Misaligned` where the reader is not
    /// at a byte boundary, with `UnexpectedEof` at the end of the buffer, and
    /// reads nothing in either case.
    pub fn read_byte(&mut self) -> (r: Result<u8, Error>)
        ensures
            final(self).stream() == old(self).stream(),
            old(self).position() % 8 != 0 ==> r == Err::<u8, Error>(Error::Misaligned),
            old(self).position() % 8 == 0 && old(self).position() >= bit_len(old(self).stream())
                ==> r == Err::<u8, Error>(Error::UnexpectedEof),
            old(self).position() % 8 == 0 && old(self).position() < bit_len(old(self).stream())
                ==> r == Ok::<u8, Error>(old(self).stream()[old(self).position() as int / 8]),
            r is Ok ==> final(self).position() == old(self).position() + 8,
            r is Err ==> final(self).position() == old(self).position(),
    {
        proof {
            use_type_invariant(&*self);
        }
        if self.bit != 0 {
            return Err(Error::Misaligned);
        }
        if self.byte >= self.data.len() {
            return Err(Error::UnexpectedEof);
        }
        let value: u8 = self.data[self.byte];
        self.byte = self.byte + 1;
        Ok(value)
    }

    /// Reads exactly `count` whole bytes. Fails with `Misaligned` where the
    /// reader is not at a byte boundary, with `UnexpectedEof` where fewer than
    /// `count` bytes are left, and reads nothing in either case.
    pub fn read_exact(&mut self, count: usize) -> (r: Result<Vec<u8>, Error>)
        ensures
            final(self).stream() == old(self).stream(),
            same_bytes(r, spec_read_exact(old(self).stream(), old(self).position(), count as nat)),
            r is Ok ==> final(self).position() == old(self).position() + 8 * count,
            r is Err ==> final(self).position() == old(self).position(),
    {
        proof {
            use_type_invariant(&*self);
        }
        if self.bit != 0 {
            return Err(Error::Misaligned);
        }
        if count > self.data.len() - self.byte {
            return Err(Error::UnexpectedEof);
        }
        self.read(count)
    }
}

/// What reading `count` whole bytes at bit position `pos` gives.
pub open spec fn spec_read_exact(bytes: Seq<u8>, pos: nat, count: nat) -> Result<Seq<u8>, Error> {
    if pos % 8 != 0 {
        Err(Error::Misaligned)
    } else if pos / 8 + count > bytes.len() {
        Err(Error::UnexpectedEof)
    } else {
        Ok(bytes.subrange((pos / 8) as int, (pos / 8 + count) as int))
    }
}

impl ReadBits for BitReader {
    open spec fn stream(&self) -> Seq<u8> {
        self.bytes()
    }

    open spec fn position(&self) -> nat {
        self.pos()
    }

    fn read_bits(&mut self, len: usize) -> (r: Result<u64, Error>) {
        if !self.has_bits(len) {
            return Err(Error::UnexpectedEof);
        }
        let ghost start = self.position() as int;
        let ghost bytes = self.stream();
        let mut result: u64 = 0;
        let mut i: usize = 0;
        while i < len
            invariant
                i <= len <= 64,
                self.stream() == bytes,
                self.position() == start + i,
                start + len <= bit_len(bytes),
                0 <= start,
                result == code_bits(bytes, start, i as nat),
            decreases len - i,
        {
            proof {
                lemma_code_bits_bound(bytes, start, i as nat);
                lemma_code_bits_bound(bytes, start, (i + 1) as nat);
                lemma_pow2_unfold((i + 1) as nat);
                vstd::arithmetic::power2::lemma_pow2_strictly_increases((i + 1) as nat, 65);
                lemma2_to64();
                lemma2_to64_rest();
                if i + 1 < 64 {
                    vstd::arithmetic::power2::lemma_pow2_strictly_increases((i + 1) as nat, 64);
                }
            }
            let b: u64 = self.next_bit();
            result = result * 2 + b;
            i = i + 1;
        }
        Ok(result)
    }

    fn read_remaining_byte(&mut self) -> (r: Result<u8, Error>) {
        let skipped: u8 = self.align_to_byte();
        Ok(skipped)
    }

    fn read_number(&mut self, len: usize) -> (r: Result<u64, Error>) {
        if !self.has_bits(len) {
            return Err(Error::UnexpectedEof);
        }
        let ghost start = self.position() as int;
        let ghost bytes = self.stream();
        let mut result: u64 = 0;
        let mut weight: u64 = 1;
        let mut i: usize = 0;
        proof {
            lemma2_to64();
        }
        while i < len
            invariant
                i <= len <= 64,
                self.stream() == bytes,
                self.position() == start + i,
                start + len <= bit_len(bytes),
                0 <= start,
                result == number_bits(bytes, start, i as nat),
                i < 64 ==> weight == pow2(i as nat),
            decreases len - i,
        {
            proof {
                lemma_number_bits_bound(bytes, start, i as nat);
                lemma_number_bits_bound(bytes, start, (i + 1) as nat);
                lemma_pow2_unfold((i + 1) as nat);
                lemma2_to64();
                lemma2_to64_rest();
                if i + 1 < 64 {
                    vstd::arithmetic::power2::lemma_pow2_strictly_increases((i + 1) as nat, 64);
                }
            }
            let b: u64 = self.next_bit();
            proof {
                let bt = bit_at(bytes, start + i);
                let w = pow2(i as nat);
                assert(bt * w == (if bt == 1 { w } else { 0 })) by (nonlinear_arith)
                    requires
                        bt <= 1,
                ;
            }
            if b == 1 {
                result = result + weight;
            }
            i = i + 1;
            if i < 64 {
                weight = weight * 2;
            }
        }
        Ok(result)
    }
}

} // verus!
