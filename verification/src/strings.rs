//! Literal strings, hexadecimal strings and names.

use vstd::prelude::*;
use crate::error::Error;
use crate::lexer::{Res, Found, Outcome, tail, spec_eol, eol};

verus! {

/// The outcome `o` with `prefix` put before the bytes found.
pub open spec fn prepend_all(prefix: Seq<u8>, o: Outcome<Seq<u8>>) -> Outcome<Seq<u8>> {
    match o {
        Outcome::Found(v, rest) => Outcome::Found(prefix + v, rest),
        Outcome::NotFound => Outcome::NotFound,
        Outcome::Error(e) => Outcome::Error(e),
    }
}

/// Putting two prefixes before an outcome, one after the other, is putting
/// their concatenation before it.
pub proof fn lemma_prepend_all(p: Seq<u8>, q: Seq<u8>, o: Outcome<Seq<u8>>)
    ensures
        prepend_all(p, prepend_all(q, o)) == prepend_all(p + q, o),
        prepend_all(Seq::empty(), o) == o,
{
    match o {
        Outcome::Found(v, rest) => {
            assert(p + (q + v) =~= (p + q) + v);
            assert(Seq::<u8>::empty() + v =~= v);
        },
        _ => {},
    }
}

/// Whether a byte is an octal digit.
pub open spec fn spec_is_octal_digit(data: u8) -> bool {
    '0' as u8 <= data <= '7' as u8
}

/// Whether a byte is an octal digit.
pub fn is_octal_digit(data: u8) -> (r: bool)
    ensures
        r == spec_is_octal_digit(data),
{
    0x30 <= data && data <= 0x37
}

/// The number of octal digits at the start of `s`, up to three.
pub open spec fn octal_len(s: Seq<u8>) -> nat {
    if s.len() > 0 && spec_is_octal_digit(s[0]) {
        if s.len() > 1 && spec_is_octal_digit(s[1]) {
            if s.len() > 2 && spec_is_octal_digit(s[2]) {
                3
            } else {
                2
            }
        } else {
            1
        }
    } else {
        0
    }
}

/// The value of the octal digit `data`.
pub open spec fn octal_value(data: u8) -> nat {
    (data - '0' as u8) as nat
}

/// The byte that one to three octal digits at the start of `s` stand for;
/// what does not fit the byte is dropped from the high end.
pub open spec fn spec_octal_char(s: Seq<u8>) -> Outcome<u8> {
    let n = octal_len(s);
    if n == 0 {
        Outcome::NotFound
    } else if n == 1 {
        Outcome::Found(octal_value(s[0]) as u8, s.skip(1))
    } else if n == 2 {
        Outcome::Found((octal_value(s[0]) * 8 + octal_value(s[1])) as u8, s.skip(2))
    } else {
        Outcome::Found(
            ((octal_value(s[0]) * 64 + octal_value(s[1]) * 8 + octal_value(s[2])) % 256) as u8,
            s.skip(3),
        )
    }
}

/// Recognizes one to three octal digits and gives the byte that they stand
/// for.
pub fn octal_char<'a>(data: &'a [u8]) -> (r: Res<'a, u8>)
    ensures
        r.parsed(spec_octal_char(data@)),
{
    let mut i: usize = 0;
    while i < 3 && data.len() > i && is_octal_digit(data[i])
        invariant
            i <= 3,
            i <= data@.len(),
            forall|k: int| 0 <= k < i ==> spec_is_octal_digit(#[trigger] data@[k]),
        decreases 3 - i,
    {
        i = i + 1;
    }
    if i == 0 {
        return Res::NotFound;
    }
    let value: u16 = if i == 3 {
        (data[0] - 0x30) as u16 * 64 + (data[1] - 0x30) as u16 * 8 + (data[2] - 0x30) as u16
    } else if i == 2 {
        (data[0] - 0x30) as u16 * 8 + (data[1] - 0x30) as u16
    } else {
        (data[0] - 0x30) as u16
    };
    Res::found((value % 256) as u8, tail(data, i))
}

/// The byte that the escape letter `data` stands for: a control character
/// for `n`, `r`, `t`, `b` and `f`, the byte itself for any other.
pub open spec fn escape_value(data: u8) -> u8 {
    if data == 'n' as u8 {
        0x0A
    } else if data == 'r' as u8 {
        0x0D
    } else if data == 't' as u8 {
        0x09
    } else if data == 'b' as u8 {
        0x08
    } else if data == 'f' as u8 {
        0x0C
    } else {
        data
    }
}

/// An escape at the start of `s`: a backslash, then up to three octal digits,
/// or a line end, which reads as a space, or any other byte.
pub open spec fn spec_string_escape(s: Seq<u8>) -> Outcome<u8> {
    if s.len() < 2 || s[0] != '\\' as u8 {
        Outcome::NotFound
    } else {
        match spec_octal_char(s.skip(1)) {
            Outcome::Found(v, rest) => Outcome::Found(v, rest),
            _ => match spec_eol(s.skip(1)) {
                Outcome::Found(_, rest) => Outcome::Found(0x20, rest),
                _ => Outcome::Found(escape_value(s[1]), s.skip(2)),
            },
        }
    }
}

/// An escape takes at least two bytes.
pub proof fn lemma_string_escape(s: Seq<u8>)
    ensures
        spec_string_escape(s) matches Outcome::Found(v, rest) ==> rest.len() + 2 <= s.len(),
        !(spec_string_escape(s) is Error),
{
}

/// Recognizes an escape of a literal string and gives the byte that it
/// stands for.
pub fn string_escape<'a>(data: &'a [u8]) -> (r: Res<'a, u8>)
    ensures
        r.parsed(spec_string_escape(data@)),
{
    if data.len() < 2 || data[0] != 0x5C {
        return Res::NotFound;
    }
    let after: &[u8] = tail(data, 1);
    let octal = octal_char(after);
    if octal.is_found() {
        return octal;
    }
    let line_end = eol(after);
    if let Res::Found(r) = line_end {
        return Res::found(0x20, r.remaining);
    }
    let byte: u8 = data[1];
    let result: u8 = if byte == 0x6E {
        0x0A
    } else if byte == 0x72 {
        0x0D
    } else if byte == 0x74 {
        0x09
    } else if byte == 0x62 {
        0x08
    } else if byte == 0x66 {
        0x0C
    } else {
        byte
    };
    Res::found(result, tail(data, 2))
}

/// The rest of a literal string of which `balance` parentheses are open: the
/// bytes up to the parenthesis that closes the first one, with escapes
/// resolved and the balanced parentheses inside kept. `UnbalancedString`
/// where the bytes end first.
pub open spec fn spec_literal_body(s: Seq<u8>, balance: nat) -> Outcome<Seq<u8>>
    decreases s.len(),
{
    if s.len() == 0 {
        Outcome::Error(Error::UnbalancedString)
    } else {
        match spec_string_escape(s) {
            Outcome::Found(v, rest) => {
                if rest.len() < s.len() {
                    prepend_all(seq![v], spec_literal_body(rest, balance))
                } else {
                    Outcome::Error(Error::UnbalancedString)
                }
            },
            _ => {
                if s[0] == ')' as u8 {
                    if balance <= 1 {
                        Outcome::Found(Seq::empty(), s.skip(1))
                    } else {
                        prepend_all(seq![s[0]], spec_literal_body(s.skip(1), (balance - 1) as nat))
                    }
                } else if s[0] == '(' as u8 {
                    prepend_all(seq![s[0]], spec_literal_body(s.skip(1), balance + 1))
                } else {
                    prepend_all(seq![s[0]], spec_literal_body(s.skip(1), balance))
                }
            },
        }
    }
}

/// A literal string at the start of `s`: `(`, bytes with balanced
/// parentheses and escapes, `)`.
pub open spec fn spec_literal_string(s: Seq<u8>) -> Outcome<Seq<u8>> {
    if s.len() > 0 && s[0] == '(' as u8 {
        spec_literal_body(s.skip(1), 1)
    } else {
        Outcome::NotFound
    }
}

/// Recognizes a literal string and gives its bytes, with the escapes
/// resolved. Fails with `UnbalancedString` where the parentheses do not
/// balance.
pub fn literal_string<'a>(data: &'a [u8]) -> (r: Res<'a, Vec<u8>>)
    ensures
        r.parsed(spec_literal_string(data@)),
        r matches Res::Found(f) ==> f.remaining@.len() < data@.len(),
{
    if data.len() == 0 || data[0] != 0x28 {
        return Res::NotFound;
    }
    let mut cur: &[u8] = tail(data, 1);
    let mut result: Vec<u8> = Vec::new();
    let mut balance: usize = 1;
    let total: usize = data.len();
    let ghost whole = spec_literal_string(data@);
    proof {
        lemma_prepend_all(Seq::empty(), Seq::empty(), spec_literal_body(cur@, 1));
    }
    while cur.len() > 0
        invariant
            balance >= 1,
            total == data@.len(),
            balance <= data@.len() - cur@.len(),
            cur@.len() < data@.len(),
            whole == spec_literal_string(data@),
            whole == prepend_all(result@, spec_literal_body(cur@, balance as nat)),
        decreases cur@.len(),
    {
        let ghost before = result@;
        let ghost here = cur@;
        proof {
            lemma_string_escape(here);
        }
        let escape = string_escape(cur);
        if let Res::Found(r) = escape {
            result.push(r.data);
            cur = r.remaining;
            proof {
                lemma_prepend_all(before, seq![r.data], spec_literal_body(cur@, balance as nat));
                assert(before + seq![r.data] =~= result@);
            }
        } else {
            let c: u8 = cur[0];
            cur = tail(cur, 1);
            if c == 0x29 {
                if balance == 1 {
                    proof {
                        assert(before + Seq::<u8>::empty() =~= before);
                    }
                    return Res::found(result, cur);
                }
                balance = balance - 1;
            } else if c == 0x28 {
                balance = balance + 1;
            }
            result.push(c);
            proof {
                lemma_prepend_all(before, seq![c], spec_literal_body(cur@, balance as nat));
                assert(before + seq![c] =~= result@);
            }
        }
    }
    Res::Error(Error::UnbalancedString)
}

/// Whether a byte is white space inside a hexadecimal string: NUL, HT, LF,
/// FF, CR or SP.
pub open spec fn spec_is_whitespace_ascii(data: u8) -> bool {
    data == 0x00 || data == 0x09 || data == 0x0A || data == 0x0C || data == 0x0D || data == 0x20
}

/// Whether a byte is white space inside a hexadecimal string.
pub fn is_whitespace_ascii(data: u8) -> (r: bool)
    ensures
        r == spec_is_whitespace_ascii(data),
{
    data == 0x00 || data == 0x09 || data == 0x0A || data == 0x0C || data == 0x0D || data == 0x20
}

/// Whether a byte is a hexadecimal digit, in either case.
pub open spec fn spec_is_hex_ascii(data: u8) -> bool {
    ('0' as u8 <= data <= '9' as u8) || ('A' as u8 <= data <= 'F' as u8) || ('a' as u8 <= data
        <= 'f' as u8)
}

/// Whether a byte is a hexadecimal digit, in either case.
pub fn is_hex_ascii(data: u8) -> (r: bool)
    ensures
        r == spec_is_hex_ascii(data),
{
    (0x30 <= data && data <= 0x39) || (0x41 <= data && data <= 0x46) || (0x61 <= data && data
        <= 0x66)
}

/// The hexadecimal digit `data` in upper case; any other byte as it is.
pub open spec fn spec_uppercase_hex(data: u8) -> u8 {
    if 'a' as u8 <= data <= 'f' as u8 {
        (data - 0x20) as u8
    } else {
        data
    }
}

/// The hexadecimal digit `data` in upper case; any other byte as it is.
pub fn uppercase_hex(data: u8) -> (r: u8)
    ensures
        r == spec_uppercase_hex(data),
{
    if 0x61 <= data && data <= 0x66 {
        data - 0x20
    } else {
        data
    }
}

/// The value of the upper-case hexadecimal digit `data`.
pub open spec fn spec_ascii_to_hex(data: u8) -> u8 {
    if '0' as u8 <= data <= '9' as u8 {
        (data - '0' as u8) as u8
    } else {
        (data - 'A' as u8 + 10) as u8
    }
}

/// The value of the upper-case hexadecimal digit `data`.
pub fn ascii_to_hex(data: u8) -> (r: u8)
    requires
        spec_is_hex_ascii(data),
        data == spec_uppercase_hex(data),
    ensures
        r == spec_ascii_to_hex(data),
        r <= 15,
{
    if 0x30 <= data && data <= 0x39 {
        data - 0x30
    } else {
        data - 0x41 + 10
    }
}

/// The value of the hexadecimal digit `data`, in either case.
pub open spec fn hex_value(data: u8) -> u8 {
    spec_ascii_to_hex(spec_uppercase_hex(data))
}

/// The byte that the two hexadecimal digits at the start of `s` stand for;
/// where `s` is a single digit, the byte whose high half it is.
pub open spec fn spec_ascii_array_to_hex(s: Seq<u8>) -> Outcome<u8> {
    if s.len() >= 2 {
        if spec_is_hex_ascii(s[0]) && spec_is_hex_ascii(s[1]) {
            Outcome::Found((hex_value(s[0]) * 16 + hex_value(s[1])) as u8, s.skip(2))
        } else {
            Outcome::NotFound
        }
    } else if s.len() == 1 {
        if spec_is_hex_ascii(s[0]) {
            Outcome::Found((hex_value(s[0]) * 16) as u8, s.skip(1))
        } else {
            Outcome::NotFound
        }
    } else {
        Outcome::NotFound
    }
}

/// Recognizes two hexadecimal digits, or one at the end of the input, and
/// gives the byte that they stand for.
pub fn ascii_array_to_hex<'a>(data: &'a [u8]) -> (r: Res<'a, u8>)
    ensures
        r.parsed(spec_ascii_array_to_hex(data@)),
{
    if data.len() >= 2 {
        if !is_hex_ascii(data[0]) || !is_hex_ascii(data[1]) {
            return Res::NotFound;
        }
        let high: u8 = ascii_to_hex(uppercase_hex(data[0]));
        let low: u8 = ascii_to_hex(uppercase_hex(data[1]));
        Res::found(high * 0x10 + low, tail(data, 2))
    } else if data.len() == 1 {
        if !is_hex_ascii(data[0]) {
            return Res::NotFound;
        }
        let high: u8 = ascii_to_hex(uppercase_hex(data[0]));
        Res::found(high * 0x10, tail(data, 1))
    } else {
        Res::NotFound
    }
}

/// The hexadecimal digits of a hexadecimal string from inside it on, in
/// upper case and without the white space between them, up to the `>` that
/// ends it. `UnexpectedEof` where the bytes end first, `InvalidNumber` at a
/// byte that is neither a digit nor white space.
pub open spec fn spec_hex_digits(s: Seq<u8>) -> Outcome<Seq<u8>>
    decreases s.len(),
{
    if s.len() == 0 {
        Outcome::Error(Error::UnexpectedEof)
    } else if s[0] == '>' as u8 {
        Outcome::Found(Seq::empty(), s.skip(1))
    } else if spec_is_whitespace_ascii(s[0]) {
        spec_hex_digits(s.skip(1))
    } else if spec_is_hex_ascii(s[0]) {
        prepend_all(seq![spec_uppercase_hex(s[0])], spec_hex_digits(s.skip(1)))
    } else {
        Outcome::Error(Error::InvalidNumber)
    }
}

/// The bytes that the hexadecimal digits `d` stand for, two digits to a byte;
/// a last digit alone is the high half of its byte.
pub open spec fn pair_up(d: Seq<u8>) -> Seq<u8>
    decreases d.len(),
{
    if d.len() == 0 {
        Seq::empty()
    } else if d.len() == 1 {
        seq![(hex_value(d[0]) * 16) as u8]
    } else {
        seq![(hex_value(d[0]) * 16 + hex_value(d[1])) as u8] + pair_up(d.skip(2))
    }
}

/// A hexadecimal string at the start of `s`: `<`, hexadecimal digits with
/// white space between them at will, `>`.
pub open spec fn spec_hex_string(s: Seq<u8>) -> Outcome<Seq<u8>> {
    if s.len() > 0 && s[0] == '<' as u8 {
        match spec_hex_digits(s.skip(1)) {
            Outcome::Found(d, rest) => Outcome::Found(pair_up(d), rest),
            Outcome::NotFound => Outcome::NotFound,
            Outcome::Error(e) => Outcome::Error(e),
        }
    } else {
        Outcome::NotFound
    }
}

/// Recognizes a hexadecimal string and gives the bytes that its digits stand
/// for.
pub fn hex_string<'a>(data: &'a [u8]) -> (r: Res<'a, Vec<u8>>)
    ensures
        r.parsed(spec_hex_string(data@)),
        r matches Res::Found(f) ==> f.remaining@.len() < data@.len(),
{
    if data.len() == 0 || data[0] != 0x3C {
        return Res::NotFound;
    }
    let mut cur: &[u8] = tail(data, 1);
    let mut result: Vec<u8> = Vec::new();
    let ghost inside = cur@;
    proof {
        lemma_prepend_all(Seq::empty(), Seq::empty(), spec_hex_digits(cur@));
    }
    while cur.len() > 0 && cur[0] != 0x3E
        invariant
            spec_hex_digits(inside) == prepend_all(result@, spec_hex_digits(cur@)),
            forall|k: int| 0 <= k < result@.len() ==> spec_is_hex_ascii(#[trigger] result@[k]),
            inside == data@.skip(1),
            data@.len() > 0 && data@[0] == '<' as u8,
            cur@.len() < data@.len(),
        decreases cur@.len(),
    {
        if is_whitespace_ascii(cur[0]) {
        } else if is_hex_ascii(cur[0]) {
            let ghost before = result@;
            let upper: u8 = uppercase_hex(cur[0]);
            result.push(upper);
            proof {
                lemma_prepend_all(before, seq![upper], spec_hex_digits(cur@.skip(1)));
                assert(before + seq![upper] =~= result@);
            }
        } else {
            return Res::Error(Error::InvalidNumber);
        }
        cur = tail(cur, 1);
    }
    if cur.len() == 0 {
        return Res::Error(Error::UnexpectedEof);
    }
    proof {
        assert(result@ + Seq::<u8>::empty() =~= result@);
    }
    let rest: &[u8] = tail(cur, 1);
    let mut bytes: Vec<u8> = Vec::new();
    let mut hex: &[u8] = result.as_slice();
    assert(bytes@ + pair_up(hex@) =~= pair_up(result@));
    while hex.len() > 0
        invariant
            pair_up(result@) == bytes@ + pair_up(hex@),
            forall|k: int| 0 <= k < hex@.len() ==> spec_is_hex_ascii(#[trigger] hex@[k]),
            spec_hex_string(data@) == Outcome::Found(pair_up(result@), rest@),
            rest@.len() < data@.len(),
        decreases hex@.len(),
    {
        let ghost before = bytes@;
        let ghost digits = hex@;
        proof {
            assert(spec_is_hex_ascii(digits[0]));
            if digits.len() > 1 {
                assert(spec_is_hex_ascii(digits[1]));
            }
        }
        match ascii_array_to_hex(hex) {
            Res::Found(r) => {
                bytes.push(r.data);
                hex = r.remaining;
                proof {
                    if digits.len() == 1 {
                        assert(pair_up(digits) =~= seq![r.data] + pair_up(hex@));
                    }
                    assert(before + (seq![r.data] + pair_up(hex@)) =~= bytes@ + pair_up(hex@));
                    assert forall|k: int| 0 <= k < hex@.len() implies spec_is_hex_ascii(
                        #[trigger] hex@[k],
                    ) by {
                        assert(hex@[k] == digits[k + (digits.len() - hex@.len())]);
                    }
                }
            },
            _ => {
                return Res::NotFound;
            },
        }
    }
    proof {
        assert(bytes@ + Seq::<u8>::empty() =~= bytes@);
    }
    Res::found(bytes, rest)
}

/// A string at the start of `s`: a hexadecimal string, or else a literal
/// string.
pub open spec fn spec_string(s: Seq<u8>) -> Outcome<Seq<u8>> {
    match spec_hex_string(s) {
        Outcome::Found(v, rest) => Outcome::Found(v, rest),
        _ => spec_literal_string(s),
    }
}

/// Recognizes a string, hexadecimal or literal, and gives its bytes.
pub fn string<'a>(data: &'a [u8]) -> (r: Res<'a, Vec<u8>>)
    ensures
        r.parsed(spec_string(data@)),
        r matches Res::Found(f) ==> f.remaining@.len() < data@.len(),
{
    let r = hex_string(data);
    if r.is_found() {
        return r;
    }
    literal_string(data)
}

/// Whether a byte can stand in a name: a printable character that is none of
/// `/ ( ) [ ] < >`.
pub open spec fn spec_is_regular(data: u8) -> bool {
    '!' as u8 <= data <= '~' as u8 && data != '/' as u8 && data != '(' as u8 && data != ')' as u8
        && data != '[' as u8 && data != ']' as u8 && data != '<' as u8 && data != '>' as u8
}

/// Whether a byte can stand in a name.
pub fn is_regular(data: u8) -> (r: bool)
    ensures
        r == spec_is_regular(data),
{
    0x21 <= data && data <= 0x7E && data != 0x2F && data != 0x28 && data != 0x29 && data != 0x5B
        && data != 0x5D && data != 0x3C && data != 0x3E
}

/// An escape of a name at the start of `s`: `#` and two hexadecimal digits.
/// `InvalidName` where fewer than two bytes follow the `#`.
pub open spec fn spec_identifier_escape(s: Seq<u8>) -> Outcome<u8> {
    if s.len() > 0 && s[0] == '#' as u8 {
        if s.len() < 3 {
            Outcome::Error(Error::InvalidName)
        } else {
            spec_ascii_array_to_hex(s.skip(1))
        }
    } else {
        Outcome::NotFound
    }
}

/// Recognizes an escape of a name, `#` and two hexadecimal digits, and gives
/// the byte that it stands for.
pub fn identifier_escape<'a>(data: &'a [u8]) -> (r: Res<'a, u8>)
    ensures
        r.parsed(spec_identifier_escape(data@)),
{
    if data.len() == 0 || data[0] != 0x23 {
        return Res::NotFound;
    }
    let after: &[u8] = tail(data, 1);
    if after.len() < 2 {
        return Res::Error(Error::InvalidName);
    }
    ascii_array_to_hex(after)
}

/// The bytes of a name from inside it on: the bytes that can stand in a
/// name, with each escape replaced by its byte. A `#` that two hexadecimal
/// digits do not follow stands for itself.
pub open spec fn spec_name_body(s: Seq<u8>) -> Outcome<Seq<u8>>
    decreases s.len(),
{
    if s.len() == 0 || !spec_is_regular(s[0]) {
        Outcome::Found(Seq::empty(), s)
    } else {
        match spec_identifier_escape(s) {
            Outcome::Found(v, rest) => {
                if rest.len() < s.len() {
                    prepend_all(seq![v], spec_name_body(rest))
                } else {
                    Outcome::Error(Error::InvalidName)
                }
            },
            Outcome::Error(e) => Outcome::Error(e),
            Outcome::NotFound => prepend_all(seq![s[0]], spec_name_body(s.skip(1))),
        }
    }
}

/// A name at the start of `s`: `/` and the bytes of the name.
pub open spec fn spec_identifier(s: Seq<u8>) -> Outcome<Seq<u8>> {
    if s.len() > 0 && s[0] == '/' as u8 {
        spec_name_body(s.skip(1))
    } else {
        Outcome::NotFound
    }
}

/// Recognizes a name and gives its bytes, with the escapes resolved.
pub fn identifier<'a>(data: &'a [u8]) -> (r: Res<'a, Vec<u8>>)
    ensures
        r.parsed(spec_identifier(data@)),
        r matches Res::Found(f) ==> f.remaining@.len() < data@.len(),
{
    if data.len() == 0 || data[0] != 0x2F {
        return Res::NotFound;
    }
    let mut cur: &[u8] = tail(data, 1);
    let mut result: Vec<u8> = Vec::new();
    let ghost whole = spec_identifier(data@);
    proof {
        lemma_prepend_all(Seq::empty(), Seq::empty(), spec_name_body(cur@));
    }
    while cur.len() > 0 && is_regular(cur[0])
        invariant
            whole == spec_identifier(data@),
            whole == prepend_all(result@, spec_name_body(cur@)),
            cur@.len() < data@.len(),
        decreases cur@.len(),
    {
        let ghost before = result@;
        match identifier_escape(cur) {
            Res::Found(escape) => {
                cur = escape.remaining;
                result.push(escape.data);
                proof {
                    lemma_prepend_all(before, seq![escape.data], spec_name_body(cur@));
                    assert(before + seq![escape.data] =~= result@);
                }
            },
            Res::Error(e) => {
                return Res::Error(e);
            },
            Res::NotFound => {
                let c: u8 = cur[0];
                result.push(c);
                cur = tail(cur, 1);
                proof {
                    lemma_prepend_all(before, seq![c], spec_name_body(cur@));
                    assert(before + seq![c] =~= result@);
                }
            },
        }
    }
    proof {
        assert(result@ + Seq::<u8>::empty() =~= result@);
    }
    Res::found(result, cur)
}

/// `s` without the white space that a hexadecimal string may hold.
pub open spec fn without_whitespace(s: Seq<u8>) -> Seq<u8>
    decreases s.len(),
{
    if s.len() == 0 {
        Seq::empty()
    } else if spec_is_whitespace_ascii(s[0]) {
        without_whitespace(s.skip(1))
    } else {
        seq![s[0]] + without_whitespace(s.skip(1))
    }
}

/// What was found, whatever remains after it.
pub open spec fn found_value<V>(o: Outcome<V>) -> Outcome<V> {
    match o {
        Outcome::Found(v, rest) => Outcome::Found(v, Seq::empty()),
        other => other,
    }
}

/// The digits of a hexadecimal string do not depend on the white space in
/// it: bytes that are the same once their white space is taken out give the
/// same digits, or fail alike.
pub proof fn lemma_hex_digits_ignore_whitespace(a: Seq<u8>, b: Seq<u8>)
    requires
        without_whitespace(a) == without_whitespace(b),
    ensures
        found_value(spec_hex_digits(a)) == found_value(spec_hex_digits(b)),
    decreases a.len() + b.len(),
{
    if a.len() > 0 && spec_is_whitespace_ascii(a[0]) {
        lemma_hex_digits_ignore_whitespace(a.skip(1), b);
    } else if b.len() > 0 && spec_is_whitespace_ascii(b[0]) {
        lemma_hex_digits_ignore_whitespace(a, b.skip(1));
    } else if a.len() == 0 || b.len() == 0 {
        assert(without_whitespace(a).len() == without_whitespace(b).len());
    } else {
        let x = without_whitespace(a);
        let y = without_whitespace(b);
        assert(x[0] == a[0]);
        assert(y[0] == b[0]);
        assert(x.skip(1) =~= without_whitespace(a.skip(1)));
        assert(y.skip(1) =~= without_whitespace(b.skip(1)));
        if a[0] != '>' as u8 && spec_is_hex_ascii(a[0]) {
            lemma_hex_digits_ignore_whitespace(a.skip(1), b.skip(1));
        }
    }
}

/// A hexadecimal string does not depend on the white space between its
/// brackets: two strings whose insides are the same once their white space
/// is taken out stand for the same bytes, or fail alike.
pub proof fn lemma_hex_string_ignores_whitespace(a: Seq<u8>, b: Seq<u8>)
    requires
        without_whitespace(a) == without_whitespace(b),
    ensures
        found_value(spec_hex_string(seq!['<' as u8] + a)) == found_value(
            spec_hex_string(seq!['<' as u8] + b),
        ),
{
    assert((seq!['<' as u8] + a).skip(1) =~= a);
    assert((seq!['<' as u8] + b).skip(1) =~= b);
    lemma_hex_digits_ignore_whitespace(a, b);
}

/// The hexadecimal digits `d` in upper case.
pub open spec fn upper_digits(d: Seq<u8>) -> Seq<u8> {
    Seq::new(d.len(), |i: int| spec_uppercase_hex(d[i]))
}

/// Whether nothing but hexadecimal digits stands in `s` beside white space.
pub open spec fn digits_and_whitespace(s: Seq<u8>) -> bool {
    forall|i: int|
        0 <= i < without_whitespace(s).len() ==> spec_is_hex_ascii(
            #[trigger] without_whitespace(s)[i],
        )
}

/// The digits of a hexadecimal string are its bytes without the white
/// space, in upper case, and nothing remains after the `>`.
pub proof fn lemma_hex_digits_of_digits(inner: Seq<u8>)
    requires
        digits_and_whitespace(inner),
    ensures
        spec_hex_digits(inner + seq!['>' as u8]) == Outcome::Found(
            upper_digits(without_whitespace(inner)),
            Seq::<u8>::empty(),
        ),
    decreases inner.len(),
{
    let whole = inner + seq!['>' as u8];
    if inner.len() == 0 {
        assert(whole.skip(1) =~= Seq::<u8>::empty());
        assert(upper_digits(without_whitespace(inner)) =~= Seq::<u8>::empty());
    } else {
        let rest = inner.skip(1);
        assert(whole[0] == inner[0]);
        assert(whole.skip(1) =~= rest + seq!['>' as u8]);
        if spec_is_whitespace_ascii(inner[0]) {
            lemma_hex_digits_of_digits(rest);
        } else {
            let kept = without_whitespace(inner);
            assert(kept[0] == inner[0]);
            assert(kept.skip(1) =~= without_whitespace(rest));
            assert forall|i: int| 0 <= i < without_whitespace(rest).len() implies spec_is_hex_ascii(
                #[trigger] without_whitespace(rest)[i],
            ) by {
                assert(without_whitespace(rest)[i] == kept[i + 1]);
            }
            lemma_hex_digits_of_digits(rest);
            assert(seq![spec_uppercase_hex(inner[0])] + upper_digits(without_whitespace(rest))
                =~= upper_digits(kept));
        }
    }
}

/// A hexadecimal string of digits is found whole, whatever white space
/// stands between its brackets: it stands for the bytes that its digits
/// spell, two to a byte, and nothing remains after it. So the same digits
/// with other white space between them stand for the same bytes.
pub proof fn lemma_hex_string_of_digits(inner: Seq<u8>)
    requires
        digits_and_whitespace(inner),
    ensures
        spec_hex_string(seq!['<' as u8] + inner + seq!['>' as u8]) == Outcome::Found(
            pair_up(upper_digits(without_whitespace(inner))),
            Seq::<u8>::empty(),
        ),
{
    let whole = seq!['<' as u8] + inner + seq!['>' as u8];
    assert(whole.skip(1) =~= inner + seq!['>' as u8]);
    lemma_hex_digits_of_digits(inner);
}

/// One byte of a string as an escaper may write it: as it is, by a
/// backslash and a letter or the byte itself, or by a backslash and three
/// octal digits.
pub enum Piece {
    Raw(u8),
    Named(u8),
    Octal(u8),
}

impl Piece {
    /// The byte that is written.
    pub open spec fn byte(self) -> u8 {
        match self {
            Piece::Raw(b) => b,
            Piece::Named(b) => b,
            Piece::Octal(b) => b,
        }
    }

    /// Whether the byte can be written this way: any byte but a backslash as
    /// it is; the control characters LF, CR, HT, BS and FF, the parentheses
    /// and the backslash by name; any byte in octal digits.
    pub open spec fn allowed(self) -> bool {
        match self {
            Piece::Raw(b) => b != '\\' as u8,
            Piece::Named(b) => b == 0x0A || b == 0x0D || b == 0x09 || b == 0x08 || b == 0x0C || b
                == '(' as u8 || b == ')' as u8 || b == '\\' as u8,
            Piece::Octal(b) => true,
        }
    }

    /// The letter that names the byte `b` after a backslash.
    pub open spec fn letter(b: u8) -> u8 {
        if b == 0x0A {
            'n' as u8
        } else if b == 0x0D {
            'r' as u8
        } else if b == 0x09 {
            't' as u8
        } else if b == 0x08 {
            'b' as u8
        } else if b == 0x0C {
            'f' as u8
        } else {
            b
        }
    }

    /// The bytes that are written for the byte.
    pub open spec fn text(self) -> Seq<u8> {
        match self {
            Piece::Raw(b) => seq![b],
            Piece::Named(b) => seq!['\\' as u8, Self::letter(b)],
            Piece::Octal(b) => seq![
                '\\' as u8,
                ('0' as u8 + b / 64) as u8,
                ('0' as u8 + (b / 8) % 8) as u8,
                ('0' as u8 + b % 8) as u8,
            ],
        }
    }

    /// The number of open parentheses after the piece, where `depth` were
    /// open before it: a parenthesis that is written as it is opens or
    /// closes one.
    pub open spec fn depth_after(self, depth: int) -> int {
        match self {
            Piece::Raw(b) => if b == '(' as u8 {
                depth + 1
            } else if b == ')' as u8 {
                depth - 1
            } else {
                depth
            },
            _ => depth,
        }
    }
}

/// The bytes that are written for `pieces`.
pub open spec fn written(pieces: Seq<Piece>) -> Seq<u8>
    decreases pieces.len(),
{
    if pieces.len() == 0 {
        Seq::empty()
    } else {
        pieces[0].text() + written(pieces.skip(1))
    }
}

/// The bytes that `pieces` stand for.
pub open spec fn bytes_of(pieces: Seq<Piece>) -> Seq<u8> {
    Seq::new(pieces.len(), |i: int| pieces[i].byte())
}

/// The number of open parentheses after `pieces`, where `depth` were open
/// before them.
pub open spec fn depth_after(pieces: Seq<Piece>, depth: int) -> int
    decreases pieces.len(),
{
    if pieces.len() == 0 {
        depth
    } else {
        depth_after(pieces.skip(1), pieces[0].depth_after(depth))
    }
}

/// Whether at least one parenthesis stays open all through `pieces`, where
/// `depth` are open before them.
pub open spec fn stays_open(pieces: Seq<Piece>, depth: int) -> bool
    decreases pieces.len(),
{
    if pieces.len() == 0 {
        depth >= 1
    } else {
        depth >= 1 && stays_open(pieces.skip(1), pieces[0].depth_after(depth))
    }
}

/// An escape that is written for a byte by name is read as that byte.
proof fn lemma_named_escape(b: u8, after: Seq<u8>)
    requires
        (Piece::Named(b)).allowed(),
    ensures
        spec_string_escape((Piece::Named(b)).text() + after) == Outcome::Found(b, after),
{
    let s = (Piece::Named(b)).text() + after;
    assert(s[0] == '\\' as u8);
    assert(s[1] == Piece::letter(b));
    assert(s.skip(1)[0] == Piece::letter(b));
    assert(s.skip(2) =~= after);
    assert(octal_len(s.skip(1)) == 0);
    assert(spec_eol(s.skip(1)) is NotFound);
}

/// An escape that is written for a byte in octal digits is read as that
/// byte.
proof fn lemma_octal_escape(b: u8, after: Seq<u8>)
    ensures
        spec_string_escape((Piece::Octal(b)).text() + after) == Outcome::Found(b, after),
{
    let s = (Piece::Octal(b)).text() + after;
    let d0 = ('0' as u8 + b / 64) as u8;
    let d1 = ('0' as u8 + (b / 8) % 8) as u8;
    let d2 = ('0' as u8 + b % 8) as u8;
    assert(s[0] == '\\' as u8);
    let t = s.skip(1);
    assert(t[0] == d0 && t[1] == d1 && t[2] == d2);
    assert(octal_len(t) == 3);
    assert(t.skip(3) =~= after);
    assert((octal_value(d0) * 64 + octal_value(d1) * 8 + octal_value(d2)) % 256 == b);
}

/// One piece and what follows it is read as the byte of the piece put
/// before the reading of what follows it.
proof fn lemma_literal_body_of_piece(piece: Piece, depth: int, after: Seq<u8>)
    requires
        piece.allowed(),
        depth >= 1,
        piece.depth_after(depth) >= 1,
    ensures
        spec_literal_body(piece.text() + after, depth as nat) == prepend_all(
            seq![piece.byte()],
            spec_literal_body(after, piece.depth_after(depth) as nat),
        ),
{
    let s = piece.text() + after;
    match piece {
        Piece::Raw(b) => {
            assert(s[0] == b);
            assert(s.skip(1) =~= after);
            assert(spec_string_escape(s) is NotFound);
        },
        Piece::Named(b) => {
            lemma_named_escape(b, after);
        },
        Piece::Octal(b) => {
            lemma_octal_escape(b, after);
        },
    }
}

/// The bytes of a literal string from inside it on are read back from the
/// pieces that they were written as: the reading of the pieces and of what
/// follows them is the bytes of the pieces put before the reading of what
/// follows them.
pub proof fn lemma_literal_body_of_pieces(pieces: Seq<Piece>, depth: int, tail: Seq<u8>)
    requires
        forall|i: int| 0 <= i < pieces.len() ==> (#[trigger] pieces[i]).allowed(),
        stays_open(pieces, depth),
    ensures
        depth_after(pieces, depth) >= 1,
        spec_literal_body(written(pieces) + tail, depth as nat) == prepend_all(
            bytes_of(pieces),
            spec_literal_body(tail, depth_after(pieces, depth) as nat),
        ),
    decreases pieces.len(),
{
    if pieces.len() == 0 {
        assert(written(pieces) + tail =~= tail);
        assert(bytes_of(pieces) =~= Seq::<u8>::empty());
        lemma_prepend_all(Seq::empty(), Seq::empty(), spec_literal_body(tail, depth as nat));
    } else {
        let first = pieces[0];
        let others = pieces.skip(1);
        let next = first.depth_after(depth);
        assert(first.allowed());
        assert forall|i: int| 0 <= i < others.len() implies (#[trigger] others[i]).allowed() by {
            assert(others[i] == pieces[i + 1]);
        }
        assert(stays_open(others, next));
        assert(next >= 1);
        lemma_literal_body_of_pieces(others, next, tail);
        let after = written(others) + tail;
        lemma_literal_body_of_piece(first, depth, after);
        assert(written(pieces) + tail =~= first.text() + after);
        assert(bytes_of(pieces) =~= seq![first.byte()] + bytes_of(others));
        lemma_prepend_all(
            seq![first.byte()],
            bytes_of(others),
            spec_literal_body(tail, depth_after(others, next) as nat),
        );
    }
}

/// A literal string is read back from the pieces that it was written as:
/// where the parentheses that are written as they are balance, the string
/// in its parentheses is recognized as the bytes of the pieces, and what
/// follows it remains.
pub proof fn lemma_literal_string_of_pieces(pieces: Seq<Piece>, rest: Seq<u8>)
    requires
        forall|i: int| 0 <= i < pieces.len() ==> (#[trigger] pieces[i]).allowed(),
        stays_open(pieces, 1),
        depth_after(pieces, 1) == 1,
    ensures
        spec_literal_string(seq!['(' as u8] + written(pieces) + seq![')' as u8] + rest)
            == Outcome::Found(bytes_of(pieces), rest),
{
    let tail = seq![')' as u8] + rest;
    let s = seq!['(' as u8] + written(pieces) + seq![')' as u8] + rest;
    lemma_literal_body_of_pieces(pieces, 1, tail);
    assert(s.skip(1) =~= written(pieces) + tail);
    assert(tail.skip(1) =~= rest);
    assert(spec_string_escape(tail) is NotFound);
    assert(bytes_of(pieces) + Seq::<u8>::empty() =~= bytes_of(pieces));
}

/// How the escaper writes the byte `b`: the control characters that have a
/// name, the parentheses and the backslash by name, any other printable
/// character as it is, and the rest in octal digits.
pub open spec fn escaped_byte(b: u8) -> Piece {
    if (Piece::Named(b)).allowed() {
        Piece::Named(b)
    } else if 0x20 <= b <= 0x7E {
        Piece::Raw(b)
    } else {
        Piece::Octal(b)
    }
}

/// How the escaper writes `bytes`.
pub open spec fn escaped(bytes: Seq<u8>) -> Seq<Piece> {
    Seq::new(bytes.len(), |i: int| escaped_byte(bytes[i]))
}

/// What the escaper writes leaves no parenthesis as it is.
proof fn lemma_escaped_depth(pieces: Seq<Piece>, depth: int)
    requires
        depth >= 1,
        forall|i: int|
            0 <= i < pieces.len() ==> (#[trigger] pieces[i]).byte() != '(' as u8 || !(pieces[i]
                is Raw),
        forall|i: int|
            0 <= i < pieces.len() ==> (#[trigger] pieces[i]).byte() != ')' as u8 || !(pieces[i]
                is Raw),
    ensures
        stays_open(pieces, depth),
        depth_after(pieces, depth) == depth,
    decreases pieces.len(),
{
    if pieces.len() > 0 {
        let others = pieces.skip(1);
        assert(pieces[0].byte() != '(' as u8 || !(pieces[0] is Raw));
        assert(pieces[0].byte() != ')' as u8 || !(pieces[0] is Raw));
        assert forall|i: int| 0 <= i < others.len() implies ((#[trigger] others[i]).byte()
            != '(' as u8 || !(others[i] is Raw)) && (others[i].byte() != ')' as u8 || !(others[i]
            is Raw)) by {
            assert(others[i] == pieces[i + 1]);
        }
        lemma_escaped_depth(others, depth);
    }
}

/// Every sequence of bytes is read back from what the escaper writes for
/// it: the literal string of the escaped bytes is recognized as the bytes
/// themselves, and what follows it remains.
pub proof fn lemma_literal_string_of_escaped(bytes: Seq<u8>, rest: Seq<u8>)
    ensures
        spec_literal_string(seq!['(' as u8] + written(escaped(bytes)) + seq![')' as u8] + rest)
            == Outcome::Found(bytes, rest),
{
    let pieces = escaped(bytes);
    lemma_escaped_depth(pieces, 1);
    lemma_literal_string_of_pieces(pieces, rest);
    assert(bytes_of(pieces) =~= bytes);
}

} // verus!
