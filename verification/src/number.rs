//! Numbers in the PDF syntax: decimal integers, decimal reals, fixed-width
//! decimal fields and big-endian binary fields.

use vstd::prelude::*;
use vstd::arithmetic::power2::{pow2, lemma_pow2_adds, lemma2_to64, lemma_pow2_strictly_increases};
use crate::error::Error;
use crate::lexer::{Res, Found, Outcome, tail, head};

verus! {

/// Whether a byte is a decimal digit.
pub open spec fn spec_is_digit(data: u8) -> bool {
    '0' as u8 <= data <= '9' as u8
}

/// Whether a byte can stand in an integer: a digit or a sign.
pub open spec fn spec_is_numeric_ascii(data: u8) -> bool {
    spec_is_digit(data) || data == '+' as u8 || data == '-' as u8
}

/// Whether a byte can stand in a number: a digit, a sign or the point.
pub open spec fn spec_is_float_ascii(data: u8) -> bool {
    spec_is_numeric_ascii(data) || data == '.' as u8
}

/// Whether a byte can stand in an integer: a digit or a sign.
pub fn is_numeric_ascii(data: u8) -> (r: bool)
    ensures
        r == spec_is_numeric_ascii(data),
{
    (0x30 <= data && data <= 0x39) || data == 0x2B || data == 0x2D
}

/// Whether a byte can stand in a number: a digit, a sign or the point.
pub fn is_float_ascii(data: u8) -> (r: bool)
    ensures
        r == spec_is_float_ascii(data),
{
    is_numeric_ascii(data) || data == 0x2E
}

/// The length of the number token at the start of `s`: the longest run of
/// digits, signs and points.
pub open spec fn token_len(s: Seq<u8>) -> nat
    decreases s.len(),
{
    if s.len() == 0 || !spec_is_float_ascii(s[0]) {
        0
    } else {
        1 + token_len(s.skip(1))
    }
}

/// A prefix of number bytes that cannot be extended is the token.
pub proof fn lemma_token_len_is(s: Seq<u8>, n: nat)
    requires
        n <= s.len(),
        forall|i: int| 0 <= i < n ==> spec_is_float_ascii(#[trigger] s[i]),
        n < s.len() ==> !spec_is_float_ascii(s[n as int]),
    ensures
        token_len(s) == n,
    decreases n,
{
    if n > 0 {
        assert(spec_is_float_ascii(s[0]));
        assert forall|i: int| 0 <= i < n - 1 implies spec_is_float_ascii(
            #[trigger] s.skip(1)[i],
        ) by {
            assert(s.skip(1)[i] == s[i + 1]);
        }
        lemma_token_len_is(s.skip(1), (n - 1) as nat);
    }
}

/// The length of the number token at the start of `data`.
pub fn token_end(data: &[u8]) -> (r: usize)
    ensures
        r == token_len(data@),
        r <= data@.len(),
{
    let mut i: usize = 0;
    while i < data.len() && is_float_ascii(data[i])
        invariant
            i <= data@.len(),
            forall|k: int| 0 <= k < i ==> spec_is_float_ascii(#[trigger] data@[k]),
        decreases data@.len() - i,
    {
        i = i + 1;
    }
    proof {
        lemma_token_len_is(data@, i as nat);
    }
    i
}

/// Whether every byte is a decimal digit.
pub open spec fn all_digits(d: Seq<u8>) -> bool {
    forall|i: int| 0 <= i < d.len() ==> spec_is_digit(#[trigger] d[i])
}

/// The number that the decimal digits `d` spell.
pub open spec fn digits_value(d: Seq<u8>) -> nat
    decreases d.len(),
{
    if d.len() == 0 {
        0
    } else {
        (10 * digits_value(d.drop_last()) + (d.last() - '0' as u8)) as nat
    }
}

/// More digits spell no smaller a number.
pub proof fn lemma_digits_value_grows(d: Seq<u8>, i: int)
    requires
        0 <= i <= d.len(),
        all_digits(d),
    ensures
        digits_value(d.take(i)) <= digits_value(d),
    decreases d.len() - i,
{
    if i < d.len() {
        lemma_digits_value_grows(d, i + 1);
        assert(d.take(i + 1).drop_last() =~= d.take(i));
        assert(d.take(i + 1).last() == d[i]);
        assert(spec_is_digit(d[i]));
    } else {
        assert(d.take(i) =~= d);
    }
}

/// The unsigned number that `d` spells: at least one digit, nothing but
/// digits, and a value that fits 64 bits.
pub open spec fn spec_parse_decimal(d: Seq<u8>) -> Option<u64> {
    if d.len() > 0 && all_digits(d) && digits_value(d) <= u64::MAX {
        Some(digits_value(d) as u64)
    } else {
        None
    }
}

/// Reads `digits` as an unsigned decimal number.
pub fn parse_decimal(digits: &[u8]) -> (r: Option<u64>)
    ensures
        r == spec_parse_decimal(digits@),
{
    if digits.len() == 0 {
        return None;
    }
    let mut value: u64 = 0;
    let mut i: usize = 0;
    assert(digits@.take(0).len() == 0);
    while i < digits.len()
        invariant
            i <= digits@.len(),
            all_digits(digits@.take(i as int)),
            value == digits_value(digits@.take(i as int)),
        decreases digits@.len() - i,
    {
        let byte: u8 = digits[i];
        assert(digits@.take(i + 1).drop_last() =~= digits@.take(i as int));
        assert(digits@.take(i + 1).last() == byte);
        if !(0x30 <= byte && byte <= 0x39) {
            assert(!spec_is_digit(digits@[i as int]));
            return None;
        }
        assert(all_digits(digits@.take(i + 1))) by {
            assert forall|k: int| 0 <= k < i + 1 implies spec_is_digit(
                #[trigger] digits@.take(i + 1)[k],
            ) by {
                if k < i {
                    assert(digits@.take(i + 1)[k] == digits@.take(i as int)[k]);
                }
            }
        }
        let digit: u64 = (byte - 0x30) as u64;
        if value > (u64::MAX - digit) / 10 {
            proof {
                if all_digits(digits@) {
                    lemma_digits_value_grows(digits@, i + 1);
                }
            }
            return None;
        }
        value = value * 10 + digit;
        i = i + 1;
    }
    assert(digits@.take(i as int) =~= digits@);
    Some(value)
}

/// The signed number that `t` spells: an optional sign, then decimal digits
/// whose value, with the sign, fits 64 bits.
pub open spec fn spec_parse_i64(t: Seq<u8>) -> Option<i64> {
    if t.len() == 0 {
        None
    } else {
        let negative = t[0] == '-' as u8;
        let d = if t[0] == '-' as u8 || t[0] == '+' as u8 {
            t.skip(1)
        } else {
            t
        };
        if d.len() > 0 && all_digits(d) {
            if negative && digits_value(d) <= 0x8000_0000_0000_0000 {
                Some((-digits_value(d)) as i64)
            } else if !negative && digits_value(d) <= i64::MAX {
                Some(digits_value(d) as i64)
            } else {
                None
            }
        } else {
            None
        }
    }
}

/// Reads `text` as a signed decimal number.
pub fn parse_i64(text: &[u8]) -> (r: Option<i64>)
    ensures
        r == spec_parse_i64(text@),
{
    if text.len() == 0 {
        return None;
    }
    let negative: bool = text[0] == 0x2D;
    let digits: &[u8] = if text[0] == 0x2D || text[0] == 0x2B {
        tail(text, 1)
    } else {
        text
    };
    match parse_decimal(digits) {
        None => None,
        Some(value) => {
            if negative {
                if value > 0x8000_0000_0000_0000 {
                    None
                } else if value == 0x8000_0000_0000_0000 {
                    Some(i64::MIN)
                } else {
                    Some(-(value as i64))
                }
            } else {
                if value > 0x7FFF_FFFF_FFFF_FFFF {
                    None
                } else {
                    Some(value as i64)
                }
            }
        },
    }
}

/// The unsigned number that `t` spells: an optional `+`, then decimal digits
/// whose value fits 64 bits.
pub open spec fn spec_parse_u64(t: Seq<u8>) -> Option<u64> {
    if t.len() > 0 && t[0] == '+' as u8 {
        spec_parse_decimal(t.skip(1))
    } else {
        spec_parse_decimal(t)
    }
}

/// Reads `text` as an unsigned decimal number.
pub fn parse_u64(text: &[u8]) -> (r: Option<u64>)
    ensures
        r == spec_parse_u64(text@),
{
    if text.len() > 0 && text[0] == 0x2B {
        parse_decimal(tail(text, 1))
    } else {
        parse_decimal(text)
    }
}

impl<'a> Res<'a, i64> {
    /// The signed decimal number that `data` spells, found with `remaining`
    /// after it; nothing found where `data` spells none.
    pub fn i64(data: &[u8], remaining: &'a [u8]) -> (r: Res<'a, i64>)
        ensures
            r == match spec_parse_i64(data@) {
                Some(v) => Res::Found(Found { data: v, remaining }),
                None => Res::NotFound,
            },
    {
        match parse_i64(data) {
            Some(v) => Res::found(v, remaining),
            None => Res::NotFound,
        }
    }
}

/// An integer at the start of `s`: the number token, read as a signed decimal
/// number.
pub open spec fn spec_integer(s: Seq<u8>) -> Outcome<i64> {
    let n = token_len(s);
    if n == 0 {
        Outcome::NotFound
    } else {
        match spec_parse_i64(s.take(n as int)) {
            Some(v) => Outcome::Found(v, s.skip(n as int)),
            None => Outcome::NotFound,
        }
    }
}

/// Recognizes an integer: an optional sign and decimal digits. A token with
/// a point in it is no integer.
pub fn integer<'a>(data: &'a [u8]) -> (r: Res<'a, i64>)
    ensures
        r.parsed(spec_integer(data@)),
        r matches Res::Found(f) ==> f.remaining@.len() < data@.len(),
{
    let i: usize = token_end(data);
    if i == 0 {
        return Res::NotFound;
    }
    Res::i64(head(data, i), tail(data, i))
}

/// A non-negative integer at the start of `s`.
pub open spec fn spec_nonnegative_integer(s: Seq<u8>) -> Outcome<u64> {
    match spec_integer(s) {
        Outcome::Found(v, rest) => if v < 0 {
            Outcome::NotFound
        } else {
            Outcome::Found(v as u64, rest)
        },
        Outcome::NotFound => Outcome::NotFound,
        Outcome::Error(e) => Outcome::Error(e),
    }
}

/// Recognizes an integer that is not negative.
pub fn nonnegative_integer<'a>(data: &'a [u8]) -> (r: Res<'a, u64>)
    ensures
        r.parsed(spec_nonnegative_integer(data@)),
        r matches Res::Found(f) ==> f.remaining@.len() < data@.len(),
{
    match integer(data) {
        Res::Found(f) => {
            if f.data < 0 {
                Res::NotFound
            } else {
                Res::found(f.data as u64, f.remaining)
            }
        },
        Res::NotFound => Res::NotFound,
        Res::Error(e) => Res::Error(e),
    }
}

/// The number that the bytes `s` spell, most significant byte first.
pub open spec fn be_value(s: Seq<u8>) -> nat
    decreases s.len(),
{
    if s.len() == 0 {
        0
    } else {
        256 * be_value(s.drop_last()) + s.last() as nat
    }
}

/// A number of `n` bytes is below `2^(8n)`.
pub proof fn lemma_be_value_bound(s: Seq<u8>)
    ensures
        be_value(s) < pow2(8 * s.len()),
    decreases s.len(),
{
    lemma2_to64();
    if s.len() > 0 {
        lemma_be_value_bound(s.drop_last());
        lemma_pow2_adds((8 * (s.len() - 1)) as nat, 8);
    }
}

/// A big-endian binary number of `size` bytes at the start of `s`.
/// `InvalidNumber` where `size` is above 8.
pub open spec fn spec_binary_integer(s: Seq<u8>, size: nat) -> Outcome<u64> {
    if size > 8 {
        Outcome::Error(Error::InvalidNumber)
    } else if s.len() < size {
        Outcome::NotFound
    } else {
        Outcome::Found(be_value(s.take(size as int)) as u64, s.skip(size as int))
    }
}

/// Recognizes a big-endian binary number of `size` bytes.
pub fn binary_integer<'a>(data: &'a [u8], size: usize) -> (r: Res<'a, u64>)
    ensures
        r.parsed(spec_binary_integer(data@, size as nat)),
{
    if size > 8 {
        return Res::Error(Error::InvalidNumber);
    }
    if data.len() < size {
        return Res::NotFound;
    }
    let mut result: u64 = 0;
    let mut i: usize = 0;
    assert(data@.take(0).len() == 0);
    while i < size
        invariant
            i <= size <= 8,
            size <= data@.len(),
            result == be_value(data@.take(i as int)),
        decreases size - i,
    {
        proof {
            lemma_be_value_bound(data@.take(i as int));
            lemma_be_value_bound(data@.take(i + 1));
            assert(data@.take(i + 1).drop_last() =~= data@.take(i as int));
            lemma2_to64();
            if 8 * (i + 1) < 64 {
                lemma_pow2_strictly_increases((8 * (i + 1)) as nat, 64);
            }
        }
        result = result * 256 + data[i] as u64;
        i = i + 1;
    }
    Res::found(result, tail(data, size))
}

/// A decimal field of exactly `length` bytes at the start of `s`: digits and
/// nothing else.
pub open spec fn spec_fixed_integer(s: Seq<u8>, length: nat) -> Outcome<u64> {
    if s.len() < length {
        Outcome::NotFound
    } else {
        match spec_parse_decimal(s.take(length as int)) {
            Some(v) => Outcome::Found(v, s.skip(length as int)),
            None => Outcome::NotFound,
        }
    }
}

/// Recognizes a decimal field of exactly `length` bytes.
pub fn fixed_integer<'a>(data: &'a [u8], length: usize) -> (r: Res<'a, u64>)
    ensures
        r.parsed(spec_fixed_integer(data@, length as nat)),
{
    if data.len() < length {
        return Res::NotFound;
    }
    match parse_decimal(head(data, length)) {
        Some(x) => Res::found(x, tail(data, length)),
        None => Res::NotFound,
    }
}

/// The characters of the digit values `d`.
pub open spec fn digit_chars(d: Seq<u8>) -> Seq<u8> {
    Seq::new(d.len(), |i: int| (d[i] + '0' as u8) as u8)
}

/// The decimal text of `i`: a minus sign where it is negative, and the digits
/// of its magnitude with no leading zero.
pub open spec fn integer_text(i: i64) -> Seq<u8> {
    let digits = digit_chars(crate::decimal::digits_of(vstd::math::abs(i as int) as nat));
    if i < 0 {
        seq!['-' as u8] + digits
    } else {
        digits
    }
}

/// The characters of digit values spell the number that the values spell.
pub proof fn lemma_digit_chars(d: Seq<u8>)
    requires
        forall|i: int| 0 <= i < d.len() ==> #[trigger] d[i] <= 9,
    ensures
        all_digits(digit_chars(d)),
        digits_value(digit_chars(d)) == crate::decimal::mantissa(d),
    decreases d.len(),
{
    if d.len() > 0 {
        lemma_digit_chars(d.drop_last());
        assert(digit_chars(d).drop_last() =~= digit_chars(d.drop_last()));
        assert(digit_chars(d).last() == d.last() + '0' as u8);
    }
}

/// An integer is read back from its decimal text: the text is recognized as
/// that integer, with nothing remaining.
pub proof fn lemma_integer_of_its_text(i: i64)
    ensures
        spec_integer(integer_text(i)) == Outcome::Found(i, Seq::<u8>::empty()),
{
    let magnitude = vstd::math::abs(i as int) as nat;
    let values = crate::decimal::digits_of(magnitude);
    crate::decimal::lemma_digits_of(magnitude);
    lemma_digit_chars(values);
    let digits = digit_chars(values);
    let text = integer_text(i);
    assert forall|k: int| 0 <= k < text.len() implies spec_is_float_ascii(#[trigger] text[k]) by {
        if i < 0 {
            if k > 0 {
                assert(text[k] == digits[k - 1]);
                assert(spec_is_digit(digits[k - 1]));
            }
        } else {
            assert(spec_is_digit(digits[k]));
        }
    }
    lemma_token_len_is(text, text.len());
    assert(text.take(text.len() as int) =~= text);
    assert(text.skip(text.len() as int) =~= Seq::<u8>::empty());
    if i < 0 {
        assert(text.skip(1) =~= digits);
    } else {
        assert(spec_is_digit(digits[0]));
    }
}

} // verus!
