//! Canonical Huffman codes: from a vector of code lengths to a table that is
//! probed by (length, code), and the decoding of one symbol from a bit stream.
//!
//! A code is fully given by its code lengths, one per symbol; a length of 0
//! marks a symbol that has no code. The model of a table is that vector.

use vstd::prelude::*;
use vstd::arithmetic::power2::{pow2, lemma_pow2_unfold, lemma2_to64, lemma_pow2_strictly_increases};
use crate::error::Error;
use crate::bit_reader::{BitReader, ReadBits, bit_len, code_bits, lemma_code_bits_bound};

verus! {

/// The longest code that a table can hold.
pub const MAX_CODE_LENGTH: usize = 15;

/// The entry of a table slot that no code leads to.
pub const NO_SYMBOL: usize = usize::MAX;

/// The number of symbols below `upto` whose code has `len` bits.
pub open spec fn count_len(lengths: Seq<u8>, len: nat, upto: nat) -> nat
    decreases upto,
{
    if upto == 0 {
        0
    } else {
        count_len(lengths, len, (upto - 1) as nat) + if lengths[upto - 1] == len {
            1nat
        } else {
            0nat
        }
    }
}

/// The number of codes of `len` bits; length 0 stands for "no code" and
/// counts for nothing.
pub open spec fn bl_count(lengths: Seq<u8>, len: nat) -> nat {
    if len == 0 {
        0
    } else {
        count_len(lengths, len, lengths.len())
    }
}

/// The numerically smallest code of `len` bits.
pub open spec fn first_code(lengths: Seq<u8>, len: nat) -> nat
    decreases len,
{
    if len == 0 {
        0
    } else {
        2 * (first_code(lengths, (len - 1) as nat) + bl_count(lengths, (len - 1) as nat))
    }
}

/// The code of `symbol`: codes of one length are consecutive, in symbol
/// order.
pub open spec fn code_of(lengths: Seq<u8>, symbol: int) -> nat {
    first_code(lengths, lengths[symbol] as nat) + count_len(
        lengths,
        lengths[symbol] as nat,
        symbol as nat,
    )
}

/// The symbol below `upto`, if any, whose code is the `len` bits `code`.
pub open spec fn symbol_below(lengths: Seq<u8>, len: nat, code: nat, upto: nat) -> Option<nat>
    decreases upto,
{
    if upto == 0 {
        None
    } else if lengths[upto - 1] == len && code_of(lengths, upto - 1) == code {
        Some((upto - 1) as nat)
    } else {
        symbol_below(lengths, len, code, (upto - 1) as nat)
    }
}

/// The symbol, if any, whose code is the `len` bits `code`.
pub open spec fn symbol_at(lengths: Seq<u8>, len: nat, code: nat) -> Option<nat> {
    if len == 0 {
        None
    } else {
        symbol_below(lengths, len, code, lengths.len())
    }
}

/// The longest code length among the symbols below `upto`.
pub open spec fn max_length_below(lengths: Seq<u8>, upto: nat) -> nat
    decreases upto,
{
    if upto == 0 {
        0
    } else {
        let rest = max_length_below(lengths, (upto - 1) as nat);
        if lengths[upto - 1] > rest {
            lengths[upto - 1] as nat
        } else {
            rest
        }
    }
}

/// The longest code length; 0 where no symbol has a code.
pub open spec fn max_length(lengths: Seq<u8>) -> nat {
    max_length_below(lengths, lengths.len())
}

/// The shortest code length among the symbols below `upto`; 0 where none
/// of them has a code.
pub open spec fn min_length_below(lengths: Seq<u8>, upto: nat) -> nat
    decreases upto,
{
    if upto == 0 {
        0
    } else {
        let rest = min_length_below(lengths, (upto - 1) as nat);
        let length = lengths[upto - 1] as nat;
        if length != 0 && (rest == 0 || length < rest) {
            length
        } else {
            rest
        }
    }
}

/// The shortest code length; 1 where no symbol has a code.
pub open spec fn min_length(lengths: Seq<u8>) -> nat {
    if min_length_below(lengths, lengths.len()) == 0 {
        1
    } else {
        min_length_below(lengths, lengths.len())
    }
}

/// Whether every length is one that a table can hold.
pub open spec fn lengths_in_range(lengths: Seq<u8>) -> bool {
    forall|i: int| 0 <= i < lengths.len() ==> #[trigger] lengths[i] <= MAX_CODE_LENGTH
}

/// Decoding one symbol at `pos`, having found no code shorter than `len`:
/// the symbol and the number of bits of its code. The shortest code that
/// matches wins. `UnexpectedEof` where the stream ends before a match,
/// `InvalidCode` where no code up to the longest matches.
pub open spec fn decode_from(lengths: Seq<u8>, bytes: Seq<u8>, pos: nat, len: nat) -> Result<
    (nat, nat),
    Error,
>
    decreases 16 - len,
{
    if len > max_length(lengths) || len > MAX_CODE_LENGTH {
        Err(Error::InvalidCode)
    } else if pos + len > bit_len(bytes) {
        Err(Error::UnexpectedEof)
    } else {
        match symbol_at(lengths, len, code_bits(bytes, pos as int, len)) {
            Some(symbol) => Ok((symbol, len)),
            None => decode_from(lengths, bytes, pos, len + 1),
        }
    }
}

/// Decoding one symbol at `pos`: the symbol and the number of bits read.
pub open spec fn decode(lengths: Seq<u8>, bytes: Seq<u8>, pos: nat) -> Result<(nat, nat), Error> {
    decode_from(lengths, bytes, pos, 1)
}

/// The longest length bounds every length, and is one of them unless it is 0.
pub proof fn lemma_max_length_below(lengths: Seq<u8>, upto: nat)
    requires
        upto <= lengths.len(),
    ensures
        forall|i: int| 0 <= i < upto ==> #[trigger] lengths[i] <= max_length_below(lengths, upto),
        max_length_below(lengths, upto) > 0 ==> exists|i: int|
            0 <= i < upto && #[trigger] lengths[i] == max_length_below(lengths, upto),
        max_length_below(lengths, upto) <= 255,
    decreases upto,
{
    if upto > 0 {
        lemma_max_length_below(lengths, (upto - 1) as nat);
        let rest = max_length_below(lengths, (upto - 1) as nat);
        if lengths[upto - 1] > rest {
            assert(lengths[upto - 1] == max_length_below(lengths, upto));
        } else if rest > 0 {
            let i = choose|i: int| 0 <= i < upto - 1 && #[trigger] lengths[i] == rest;
            assert(lengths[i] == max_length_below(lengths, upto));
        }
    }
}

/// A symbol that a table yields is a symbol of the alphabet, and its length is
/// the one probed.
pub proof fn lemma_symbol_below(lengths: Seq<u8>, len: nat, code: nat, upto: nat)
    ensures
        symbol_below(lengths, len, code, upto) matches Some(s) ==> s < upto && lengths[s as int]
            == len && code_of(lengths, s as int) == code,
    decreases upto,
{
    if upto > 0 {
        lemma_symbol_below(lengths, len, code, (upto - 1) as nat);
    }
}

/// No symbol has a code of a length that no symbol carries.
pub proof fn lemma_no_symbol_of_absent_length(lengths: Seq<u8>, len: nat, code: nat, upto: nat)
    requires
        upto <= lengths.len(),
        forall|i: int| 0 <= i < upto ==> #[trigger] lengths[i] != len,
    ensures
        symbol_below(lengths, len, code, upto) is None,
    decreases upto,
{
    if upto > 0 {
        lemma_no_symbol_of_absent_length(lengths, len, code, (upto - 1) as nat);
    }
}

/// A decoded symbol is a symbol of the alphabet and took between one bit and
/// the longest length; the bits read were there.
pub proof fn lemma_decode_from(lengths: Seq<u8>, bytes: Seq<u8>, pos: nat, len: nat)
    requires
        len >= 1,
    ensures
        decode_from(lengths, bytes, pos, len) matches Ok((s, n)) ==> s < lengths.len() && len <= n
            <= MAX_CODE_LENGTH && n <= max_length(lengths) && pos + n <= bit_len(bytes)
            && lengths[s as int] == n,
        decode_from(lengths, bytes, pos, len) matches Err(e) ==> e == Error::InvalidCode || e
            == Error::UnexpectedEof,
    decreases 16 - len,
{
    if len > max_length(lengths) || len > MAX_CODE_LENGTH {
    } else if pos + len > bit_len(bytes) {
    } else {
        let code = code_bits(bytes, pos as int, len);
        lemma_symbol_below(lengths, len, code, lengths.len());
        if symbol_at(lengths, len, code) is None {
            lemma_decode_from(lengths, bytes, pos, len + 1);
        }
    }
}

/// Decoding may start at any length below which no symbol has a code,
/// provided the stream holds that many bits.
pub proof fn lemma_decode_skip(lengths: Seq<u8>, bytes: Seq<u8>, pos: nat, from: nat, to: nat)
    requires
        1 <= from <= to,
        to <= max_length(lengths),
        to <= MAX_CODE_LENGTH,
        forall|i: int| 0 <= i < lengths.len() ==> !(from <= #[trigger] lengths[i] < to),
    ensures
        decode_from(lengths, bytes, pos, from) == if pos + to > bit_len(bytes) {
            Err(Error::UnexpectedEof)
        } else {
            decode_from(lengths, bytes, pos, to)
        },
    decreases to - from,
{
    if from < to {
        lemma_decode_skip(lengths, bytes, pos, from + 1, to);
        if pos + from <= bit_len(bytes) {
            assert forall|i: int| 0 <= i < lengths.len() implies #[trigger] lengths[i] != from by {
                assert(!(from <= lengths[i] < to));
            }
            lemma_no_symbol_of_absent_length(
                lengths,
                from,
                code_bits(bytes, pos as int, from),
                lengths.len(),
            );
        }
    }
}

/// The count of the symbols of one length grows with each symbol of that
/// length.
pub proof fn lemma_count_len_grows(lengths: Seq<u8>, len: nat, i: nat, j: nat)
    requires
        i <= j <= lengths.len(),
    ensures
        count_len(lengths, len, i) <= count_len(lengths, len, j),
        i < j && lengths[i as int] == len ==> count_len(lengths, len, i) < count_len(
            lengths,
            len,
            j,
        ),
    decreases j - i,
{
    if i < j {
        lemma_count_len_grows(lengths, len, i, (j - 1) as nat);
    }
}

/// The codes of one length are all below the first code plus their number,
/// and two symbols of that length have two codes.
pub proof fn lemma_codes_of_one_length(lengths: Seq<u8>, i: int, j: int)
    requires
        0 <= i < lengths.len(),
        0 <= j < lengths.len(),
        lengths[i] == lengths[j],
        lengths[i] >= 1,
    ensures
        code_of(lengths, i) < first_code(lengths, lengths[i] as nat) + bl_count(
            lengths,
            lengths[i] as nat,
        ),
        i != j ==> code_of(lengths, i) != code_of(lengths, j),
{
    let len = lengths[i] as nat;
    lemma_count_len_grows(lengths, len, i as nat, lengths.len());
    if i < j {
        lemma_count_len_grows(lengths, len, i as nat, j as nat);
    } else if j < i {
        lemma_count_len_grows(lengths, len, j as nat, i as nat);
    }
}

/// No symbol has a code at or above the first code of its length plus the
/// number of codes of that length.
pub proof fn lemma_no_symbol_beyond(lengths: Seq<u8>, len: nat, code: nat, upto: nat)
    requires
        len >= 1,
        upto <= lengths.len(),
        code >= first_code(lengths, len) + bl_count(lengths, len),
    ensures
        symbol_below(lengths, len, code, upto) is None,
    decreases upto,
{
    if upto > 0 {
        if lengths[upto - 1] == len {
            lemma_codes_of_one_length(lengths, upto - 1, upto - 1);
        }
        lemma_no_symbol_beyond(lengths, len, code, (upto - 1) as nat);
    }
}

/// The code of a symbol is found as the code of that symbol.
pub proof fn lemma_symbol_of_its_code(lengths: Seq<u8>, symbol: int, upto: nat)
    requires
        0 <= symbol < upto <= lengths.len(),
        lengths[symbol] >= 1,
    ensures
        symbol_below(lengths, lengths[symbol] as nat, code_of(lengths, symbol), upto) == Some(
            symbol as nat,
        ),
    decreases upto,
{
    if upto - 1 > symbol {
        if lengths[upto - 1] == lengths[symbol] {
            lemma_codes_of_one_length(lengths, symbol, upto - 1);
        }
        lemma_symbol_of_its_code(lengths, symbol, (upto - 1) as nat);
    }
}

/// The first code of a length is the first code of a shorter length plus
/// the number of codes of that shorter length, shifted by the difference of
/// the lengths, or more.
pub proof fn lemma_first_code_grows(lengths: Seq<u8>, short: nat, long: nat)
    requires
        short < long,
    ensures
        first_code(lengths, long) >= pow2((long - short) as nat) * (first_code(lengths, short)
            + bl_count(lengths, short)),
    decreases long - short,
{
    lemma2_to64();
    if long == short + 1 {
        assert(pow2(1) * (first_code(lengths, short) + bl_count(lengths, short)) == 2 * (
        first_code(lengths, short) + bl_count(lengths, short)));
    } else {
        let before = (long - 1) as nat;
        lemma_first_code_grows(lengths, short, before);
        lemma_pow2_unfold((long - short) as nat);
        let base = first_code(lengths, short) + bl_count(lengths, short);
        let half = pow2((before - short) as nat);
        assert(first_code(lengths, long) >= 2 * first_code(lengths, before));
        assert(2 * (half * base) == (2 * half) * base) by (nonlinear_arith);
    }
}

/// The first bits of a code are the code without its last bits.
pub proof fn lemma_code_bits_prefix(bytes: Seq<u8>, pos: int, short: nat, long: nat)
    requires
        short <= long,
    ensures
        code_bits(bytes, pos, short) == code_bits(bytes, pos, long) / pow2((long - short) as nat),
    decreases long - short,
{
    lemma2_to64();
    if short < long {
        let before = (long - 1) as nat;
        lemma_code_bits_prefix(bytes, pos, short, before);
        lemma_pow2_unfold((long - short) as nat);
        crate::bit_reader::lemma_bit_of_bound(bytes[(pos + long - 1) / 8], (pos + long - 1) % 8);
        let whole = code_bits(bytes, pos, long);
        let part = code_bits(bytes, pos, before);
        let half = pow2((before - short) as nat);
        vstd::arithmetic::power2::lemma_pow2_pos((before - short) as nat);
        let bit = crate::bit_reader::bit_at(bytes, pos + long - 1);
        assert(whole == 2 * part + bit);
        assert(bit <= 1);
        assert(whole / 2 == part);
        assert(whole / (2 * half) == (whole / 2) / half) by (nonlinear_arith)
            requires
                half > 0,
                whole >= 0,
        ;
        assert(pow2((long - short) as nat) == 2 * half);
        assert(code_bits(bytes, pos, short) == part / half);
        assert(code_bits(bytes, pos, short) == whole / (2 * half));
    } else {
        assert(pow2(0) == 1);
        assert((long - short) as nat == 0);
        assert(code_bits(bytes, pos, long) / 1 == code_bits(bytes, pos, long));
    }
}

/// A symbol is decoded from its code: wherever the bits of a stream spell
/// the code of a symbol, first bit first, that symbol is decoded, and the
/// bits of its code are what is read.
pub proof fn lemma_decode_of_code(lengths: Seq<u8>, symbol: int, bytes: Seq<u8>, pos: nat)
    requires
        0 <= symbol < lengths.len(),
        1 <= lengths[symbol] <= MAX_CODE_LENGTH,
        pos + lengths[symbol] <= bit_len(bytes),
        code_bits(bytes, pos as int, lengths[symbol] as nat) == code_of(lengths, symbol),
    ensures
        decode(lengths, bytes, pos) == Ok::<(nat, nat), Error>(
            (symbol as nat, lengths[symbol] as nat),
        ),
{
    lemma_max_length_below(lengths, lengths.len());
    lemma_decode_of_code_from(lengths, symbol, bytes, pos, 1);
}

/// A symbol is decoded from its code, once no shorter code was found.
proof fn lemma_decode_of_code_from(
    lengths: Seq<u8>,
    symbol: int,
    bytes: Seq<u8>,
    pos: nat,
    len: nat,
)
    requires
        0 <= symbol < lengths.len(),
        1 <= len <= lengths[symbol] <= MAX_CODE_LENGTH,
        lengths[symbol] <= max_length(lengths),
        pos + lengths[symbol] <= bit_len(bytes),
        code_bits(bytes, pos as int, lengths[symbol] as nat) == code_of(lengths, symbol),
    ensures
        decode_from(lengths, bytes, pos, len) == Ok::<(nat, nat), Error>(
            (symbol as nat, lengths[symbol] as nat),
        ),
    decreases lengths[symbol] - len,
{
    let n = lengths[symbol] as nat;
    if len == n {
        lemma_symbol_of_its_code(lengths, symbol, lengths.len());
    } else {
        let code = code_of(lengths, symbol);
        let shift = pow2((n - len) as nat);
        let base = first_code(lengths, len) + bl_count(lengths, len);
        lemma_code_bits_prefix(bytes, pos as int, len, n);
        lemma_first_code_grows(lengths, len, n);
        vstd::arithmetic::power2::lemma_pow2_pos((n - len) as nat);
        assert(code / shift >= base) by (nonlinear_arith)
            requires
                code >= shift * base,
                shift > 0,
        ;
        lemma_no_symbol_beyond(lengths, len, code_bits(bytes, pos as int, len), lengths.len());
        lemma_decode_of_code_from(lengths, symbol, bytes, pos, len + 1);
    }
}

/// A table of canonical Huffman codes, probed by (length, code).
pub struct HuffmanCode {
    codes: Vec<Vec<usize>>,
    min_length: usize,
    max_length: usize,
    lengths: Ghost<Seq<u8>>,
}

impl View for HuffmanCode {
    type V = Seq<u8>;

    /// The code lengths that the table was made from.
    closed spec fn view(&self) -> Seq<u8> {
        self.lengths@
    }
}

/// The table entry for what a probe finds.
pub open spec fn entry_of(found: Option<nat>) -> usize {
    match found {
        Some(symbol) => symbol as usize,
        None => NO_SYMBOL,
    }
}

impl HuffmanCode {
    #[verifier::type_invariant]
    spec fn inv(self) -> bool {
        &&& lengths_in_range(self.lengths@)
        &&& self.lengths@.len() < usize::MAX
        &&& self.codes@.len() == MAX_CODE_LENGTH + 1
        &&& self.max_length == max_length(self.lengths@)
        &&& self.min_length == min_length(self.lengths@)
        &&& 1 <= self.min_length
        &&& self.max_length > 0 ==> self.min_length <= self.max_length
        &&& forall|i: int|
            0 <= i < self.lengths@.len() ==> !(1 <= #[trigger] self.lengths@[i] < self.min_length)
        &&& forall|len: int|
            0 <= len <= MAX_CODE_LENGTH ==> (#[trigger] self.codes@[len])@.len() == 0
                || self.codes@[len]@.len() == pow2(len as nat)
        &&& forall|len: int, code: int|
            0 <= len <= MAX_CODE_LENGTH && 0 <= code < self.codes@[len]@.len()
                ==> #[trigger] self.codes@[len]@[code] == entry_of(
                symbol_at(self.lengths@, len as nat, code as nat),
            )
        &&& forall|len: nat, code: nat|
            len <= MAX_CODE_LENGTH && self.codes@[len as int]@.len() == 0 ==> (#[trigger] symbol_at(
                self.lengths@,
                len,
                code,
            )) is None
    }

    /// The shortest code length of the table: no code is shorter. It is 1
    /// where the table holds no code.
    pub fn min_length(&self) -> (r: usize)
        ensures
            r == min_length(self@),
            r >= 1,
            forall|i: int| 0 <= i < self@.len() ==> !(1 <= #[trigger] self@[i] < r),
    {
        proof {
            use_type_invariant(self);
        }
        self.min_length
    }

    /// The longest code length of the table; 0 where it holds no code.
    pub fn max_length(&self) -> (r: usize)
        ensures
            r == max_length(self@),
            r <= MAX_CODE_LENGTH,
    {
        proof {
            use_type_invariant(self);
            lemma_max_length_below(self@, self@.len());
        }
        self.max_length
    }

    /// The symbol whose code is the `len` bits `code`.
    pub fn lookup(&self, len: usize, code: u64) -> (r: Option<usize>)
        requires
            code < pow2(len as nat),
        ensures
            match symbol_at(self@, len as nat, code as nat) {
                Some(symbol) => r is Some && r->Some_0 == symbol && symbol < self@.len(),
                None => r is None,
            },
    {
        proof {
            use_type_invariant(self);
            lemma_symbol_below(self@, len as nat, code as nat, self@.len());
            lemma2_to64();
        }
        if len > MAX_CODE_LENGTH {
            proof {
                assert forall|i: int| 0 <= i < self@.len() implies #[trigger] self@[i]
                    != len as nat by {}
                lemma_no_symbol_of_absent_length(self@, len as nat, code as nat, self@.len());
            }
            return None;
        }
        let table = &self.codes[len];
        if table.len() == 0 {
            return None;
        }
        proof {
            if len < 15 {
                lemma_pow2_strictly_increases(len as nat, 15);
            }
        }
        let entry: usize = table[code as usize];
        if entry == NO_SYMBOL {
            None
        } else {
            Some(entry)
        }
    }

    /// Reads one symbol from `data`: probes the shortest code first and
    /// extends it one bit at a time.
    pub fn next_code(&self, data: &mut BitReader) -> (r: Result<usize, Error>)
        ensures
            final(data).stream() == old(data).stream(),
            match decode(self@, old(data).stream(), old(data).position()) {
                Ok((symbol, n)) => r is Ok && r->Ok_0 == symbol
                    && final(data).position() == old(data).position() + n
                    && symbol < self@.len(),
                Err(e) => r == Err::<usize, Error>(e),
            },
    {
        let ghost bytes = data.stream();
        let ghost pos = data.position();
        let min: usize = self.min_length;
        let max: usize = self.max_length;
        proof {
            use_type_invariant(self);
            lemma_max_length_below(self@, self@.len());
            lemma_decode_from(self@, bytes, pos, 1);
        }
        if max == 0 {
            return Err(Error::InvalidCode);
        }
        proof {
            lemma_decode_skip(self@, bytes, pos, 1, min as nat);
            lemma_code_bits_bound(bytes, pos as int, min as nat);
            lemma_pow2_strictly_increases(min as nat, 64);
            lemma2_to64();
            vstd::arithmetic::power2::lemma2_to64_rest();
        }
        let first = data.read_bits(min);
        let mut x: u64 = match first {
            Ok(v) => v,
            Err(e) => {
                return Err(e);
            },
        };
        let mut length: usize = min;
        loop
            invariant
                1 <= min <= length <= max <= MAX_CODE_LENGTH,
                max == max_length(self@),
                bytes == old(data).stream(),
                pos == old(data).position(),
                data.stream() == bytes,
                data.position() == pos + length,
                pos + length <= bit_len(bytes),
                x == code_bits(bytes, pos as int, length as nat),
                decode(self@, bytes, pos) == decode_from(self@, bytes, pos, length as nat),
            decreases max - length,
        {
            proof {
                lemma_code_bits_bound(bytes, pos as int, length as nat);
                lemma_code_bits_bound(bytes, pos as int, (length + 1) as nat);
                lemma_pow2_strictly_increases((length + 1) as nat, 64);
                lemma2_to64();
                vstd::arithmetic::power2::lemma2_to64_rest();
                lemma_decode_from(self@, bytes, pos, length as nat);
                reveal_with_fuel(decode_from, 3);
            }
            match self.lookup(length, x) {
                Some(symbol) => {
                    return Ok(symbol);
                },
                None => {},
            }
            if length == max {
                return Err(Error::InvalidCode);
            }
            let bit = match data.read_bits(1) {
                Ok(v) => v,
                Err(e) => {
                    return Err(e);
                },
            };
            proof {
                reveal_with_fuel(code_bits, 2);
                assert(bit == code_bits(bytes, pos + length, 1));
                assert(code_bits(bytes, pos + length, 1) == crate::bit_reader::bit_at(
                    bytes,
                    pos + length,
                ));
            }
            x = x * 2 + bit;
            length = length + 1;
        }
    }
}

/// `2^len` for a length that a table can hold.
fn table_size(len: usize) -> (r: usize)
    requires
        len <= MAX_CODE_LENGTH,
    ensures
        r == pow2(len as nat),
        r <= 0x8000,
{
    let mut r: usize = 1;
    let mut i: usize = 0;
    proof {
        lemma2_to64();
    }
    while i < len
        invariant
            i <= len <= MAX_CODE_LENGTH,
            r == pow2(i as nat),
            r <= 0x8000,
        decreases len - i,
    {
        proof {
            lemma_pow2_unfold((i + 1) as nat);
            if i + 1 < 15 {
                lemma_pow2_strictly_increases((i + 1) as nat, 15);
            }
            lemma2_to64();
        }
        r = r * 2;
        i = i + 1;
    }
    r
}

/// The bound at which the running counts of code generation stop growing:
/// above every code that a table can hold.
pub const COUNT_CAP: usize = 0x10000;

/// `n`, or the cap where `n` is above it.
pub open spec fn capped(n: nat) -> nat {
    if n < COUNT_CAP {
        n
    } else {
        COUNT_CAP as nat
    }
}

/// The table of the codes of `len` bits: empty where no symbol has that
/// length. Returns with it the capped number of those symbols.
fn table_for_length(code_lengths: &[u8], len: usize, first: usize) -> (r: (Vec<usize>, usize))
    requires
        1 <= len <= MAX_CODE_LENGTH,
        code_lengths@.len() < usize::MAX,
        first == capped(first_code(code_lengths@, len as nat)),
    ensures
        r.1 == capped(bl_count(code_lengths@, len as nat)),
        r.0@.len() == 0 || r.0@.len() == pow2(len as nat),
        forall|code: int|
            0 <= code < r.0@.len() ==> #[trigger] r.0@[code] == entry_of(
                symbol_at(code_lengths@, len as nat, code as nat),
            ),
        r.0@.len() == 0 ==> forall|code: nat|
            (#[trigger] symbol_at(code_lengths@, len as nat, code)) is None,
{
    let ghost lengths = code_lengths@;
    let size: usize = table_size(len);
    let mut present: bool = false;
    let mut j: usize = 0;
    while j < code_lengths.len()
        invariant
            j <= code_lengths.len(),
            code_lengths@ == lengths,
            present == exists|i: int| 0 <= i < j && #[trigger] lengths[i] == len,
        decreases code_lengths.len() - j,
    {
        if code_lengths[j] as usize == len {
            present = true;
            assert(lengths[j as int] == len);
        }
        j = j + 1;
    }
    if !present {
        proof {
            assert forall|code: nat| symbol_at(lengths, len as nat, code) is None by {
                lemma_no_symbol_of_absent_length(lengths, len as nat, code, lengths.len());
            }
            lemma_count_absent(lengths, len as nat, lengths.len());
        }
        return (Vec::new(), 0);
    }
    proof {
        vstd::arithmetic::power2::lemma_pow2_pos(len as nat);
    }
    let mut table: Vec<usize> = vec![NO_SYMBOL; size];
    let mut count: usize = 0;
    let mut s: usize = 0;
    while s < code_lengths.len()
        invariant
            s <= code_lengths.len(),
            code_lengths@ == lengths,
            lengths.len() < usize::MAX,
            1 <= len <= MAX_CODE_LENGTH,
            size == pow2(len as nat),
            size <= 0x8000,
            table@.len() == size,
            first == capped(first_code(lengths, len as nat)),
            count == capped(count_len(lengths, len as nat, s as nat)),
            forall|code: int|
                0 <= code < size ==> #[trigger] table@[code] == entry_of(
                    symbol_below(lengths, len as nat, code as nat, s as nat),
                ),
        decreases code_lengths.len() - s,
    {
        if code_lengths[s] as usize == len {
            let code: usize = first + count;
            if code < size {
                table[code] = s;
            }
            if count < COUNT_CAP {
                count = count + 1;
            }
        }
        s = s + 1;
    }
    (table, count)
}

/// No symbol of a length means a count of zero.
pub proof fn lemma_count_absent(lengths: Seq<u8>, len: nat, upto: nat)
    requires
        upto <= lengths.len(),
        forall|i: int| 0 <= i < upto ==> #[trigger] lengths[i] != len,
    ensures
        count_len(lengths, len, upto) == 0,
    decreases upto,
{
    if upto > 0 {
        lemma_count_absent(lengths, len, (upto - 1) as nat);
    }
}

/// Builds the table of the canonical code with the given lengths: counts the
/// codes of each length, derives the first code of each length, and hands
/// out consecutive codes in symbol order. A symbol of length 0 gets no code,
/// nor does one whose code would not fit in its length.
pub fn generate_codes(code_lengths: &[u8]) -> (r: HuffmanCode)
    requires
        lengths_in_range(code_lengths@),
        code_lengths@.len() < usize::MAX,
    ensures
        r@ == code_lengths@,
{
    let ghost lengths = code_lengths@;
    let mut min_length: usize = 0;
    let mut max_length: usize = 0;
    let mut i: usize = 0;
    while i < code_lengths.len()
        invariant
            i <= code_lengths.len(),
            code_lengths@ == lengths,
            lengths_in_range(lengths),
            max_length == max_length_below(lengths, i as nat),
            min_length == min_length_below(lengths, i as nat),
            max_length <= MAX_CODE_LENGTH,
            min_length <= max_length,
            max_length > 0 ==> min_length >= 1,
            min_length == 0 ==> max_length == 0,
            forall|k: int| 0 <= k < i ==> #[trigger] lengths[k] <= max_length,
            forall|k: int| 0 <= k < i ==> !(1 <= #[trigger] lengths[k] < min_length),
        decreases code_lengths.len() - i,
    {
        let length: usize = code_lengths[i] as usize;
        assert(lengths[i as int] <= MAX_CODE_LENGTH);
        if length != 0 && (min_length == 0 || length < min_length) {
            min_length = length;
        }
        if length > max_length {
            max_length = length;
        }
        i = i + 1;
    }
    if min_length == 0 {
        min_length = 1;
    }
    let mut codes: Vec<Vec<usize>> = Vec::new();
    codes.push(Vec::new());
    let mut first: usize = 0;
    let mut count: usize = 0;
    let mut len: usize = 1;
    proof {
        assert forall|code: nat| symbol_at(lengths, 0, code) is None by {}
    }
    while len <= MAX_CODE_LENGTH
        invariant
            1 <= len <= MAX_CODE_LENGTH + 1,
            code_lengths@ == lengths,
            lengths.len() < usize::MAX,
            codes@.len() == len,
            first == capped(first_code(lengths, (len - 1) as nat)),
            count == capped(bl_count(lengths, (len - 1) as nat)),
            forall|l: int|
                0 <= l < len ==> (#[trigger] codes@[l])@.len() == 0 || codes@[l]@.len() == pow2(
                    l as nat,
                ),
            forall|l: int, code: int|
                0 <= l < len && 0 <= code < codes@[l]@.len() ==> #[trigger] codes@[l]@[code]
                    == entry_of(symbol_at(lengths, l as nat, code as nat)),
            forall|l: nat, code: nat|
                l < len && codes@[l as int]@.len() == 0 ==> (#[trigger] symbol_at(lengths, l, code))
                    is None,
        decreases MAX_CODE_LENGTH + 1 - len,
    {
        let sum: usize = first + count;
        first = if sum >= COUNT_CAP / 2 {
            COUNT_CAP
        } else {
            2 * sum
        };
        let (table, n) = table_for_length(code_lengths, len, first);
        count = n;
        let ghost before = codes@;
        codes.push(table);
        proof {
            assert forall|l: int| 0 <= l < len implies codes@[l] == before[l] by {}
        }
        len = len + 1;
    }
    HuffmanCode { codes, min_length, max_length, lengths: Ghost(lengths) }
}

} // verus!
