//! Real numbers, held exactly: a sign, decimal digits and the number of
//! digits that stand after the point.

use vstd::prelude::*;
use crate::lexer::{Res, Found, Outcome, tail, head};
use crate::access::bytes_eq;
use crate::number::{spec_is_digit, all_digits, token_len, token_end};

verus! {

/// The model of a real number: `digits`, read as a decimal number, divided by
/// ten to the power `scale`, and negated where `negative` is set.
pub struct RealModel {
    pub negative: bool,
    pub digits: Seq<u8>,
    pub scale: nat,
}

/// A real number as it was written: no digit of it is lost.
#[derive(Debug, PartialEq, Eq)]
pub struct Real {
    negative: bool,
    digits: Vec<u8>,
    scale: usize,
}

impl View for Real {
    type V = RealModel;

    closed spec fn view(&self) -> RealModel {
        RealModel { negative: self.negative, digits: self.digits@, scale: self.scale as nat }
    }
}

impl RealModel {
    /// Whether the model is one of a number: at least one digit, each below
    /// ten, and no more digits after the point than there are digits.
    pub open spec fn well_formed(self) -> bool {
        &&& self.digits.len() >= 1
        &&& self.scale <= self.digits.len()
        &&& forall|i: int| 0 <= i < self.digits.len() ==> #[trigger] self.digits[i] <= 9
    }
}

/// The number that the digit values `d` spell.
pub open spec fn mantissa(d: Seq<u8>) -> nat
    decreases d.len(),
{
    if d.len() == 0 {
        0
    } else {
        10 * mantissa(d.drop_last()) + d.last() as nat
    }
}

/// The decimal digits of `n`, most significant first, without leading zeros;
/// one zero for 0.
pub open spec fn digits_of(n: nat) -> Seq<u8>
    decreases n,
{
    if n < 10 {
        seq![n as u8]
    } else {
        digits_of(n / 10).push((n % 10) as u8)
    }
}

/// The digits of a number are digits, at least one, and spell the number.
pub proof fn lemma_digits_of(n: nat)
    ensures
        digits_of(n).len() >= 1,
        forall|i: int| 0 <= i < digits_of(n).len() ==> #[trigger] digits_of(n)[i] <= 9,
        mantissa(digits_of(n)) == n,
        n > 0 ==> digits_of(n)[0] != 0,
    decreases n,
{
    if n < 10 {
        assert(digits_of(n).drop_last() =~= Seq::<u8>::empty());
        assert(mantissa(Seq::<u8>::empty()) == 0);
    } else {
        lemma_digits_of(n / 10);
        assert(digits_of(n).drop_last() =~= digits_of(n / 10));
    }
}

/// The decimal digits of `n`.
pub fn decimal_digits(n: u64) -> (r: Vec<u8>)
    ensures
        r@ == digits_of(n as nat),
    decreases n,
{
    if n < 10 {
        let mut r: Vec<u8> = Vec::new();
        r.push(n as u8);
        assert(r@ =~= digits_of(n as nat));
        r
    } else {
        let mut r = decimal_digits(n / 10);
        r.push((n % 10) as u8);
        r
    }
}

impl Real {
    #[verifier::type_invariant]
    spec fn inv(self) -> bool {
        self@.well_formed()
    }

    /// Whether the number was written with a minus sign.
    pub fn negative(&self) -> (r: bool)
        ensures
            r == self@.negative,
    {
        self.negative
    }

    /// The digits of the number, each as its value, those before the point
    /// and those after it.
    pub fn digits(&self) -> (r: &Vec<u8>)
        ensures
            r@ == self@.digits,
            self@.well_formed(),
    {
        proof {
            use_type_invariant(self);
        }
        &self.digits
    }

    /// The number of digits that stand after the point.
    pub fn scale(&self) -> (r: usize)
        ensures
            r == self@.scale,
    {
        self.scale
    }

    /// The real number that is the integer `value`.
    pub fn from_integer(value: i64) -> (r: Real)
        ensures
            r@ == (RealModel {
                negative: value < 0,
                digits: digits_of(vstd::math::abs(value as int) as nat),
                scale: 0,
            }),
    {
        let magnitude: u64 = if value >= 0 {
            value as u64
        } else if value == i64::MIN {
            0x8000_0000_0000_0000
        } else {
            (-value) as u64
        };
        let digits = decimal_digits(magnitude);
        proof {
            lemma_digits_of(magnitude as nat);
        }
        Real { negative: value < 0, digits, scale: 0 }
    }

    /// Whether the two numbers were written alike: with the same sign and
    /// the same digits, as many of them after the point.
    pub fn same(&self, other: &Real) -> (r: bool)
        ensures
            r == (self@ == other@),
    {
        let alike = self.negative == other.negative && self.scale == other.scale && bytes_eq(
            self.digits.as_slice(),
            other.digits.as_slice(),
        );
        proof {
            if alike {
                assert(self@.digits =~= other@.digits);
            }
        }
        alike
    }

    /// A copy of the number.
    pub fn duplicate(&self) -> (r: Real)
        ensures
            r@ == self@,
    {
        proof {
            use_type_invariant(self);
        }
        let mut digits: Vec<u8> = Vec::new();
        let mut i: usize = 0;
        while i < self.digits.len()
            invariant
                i <= self.digits@.len(),
                digits@ == self.digits@.take(i as int),
            decreases self.digits@.len() - i,
        {
            digits.push(self.digits[i]);
            assert(digits@ =~= self.digits@.take(i + 1));
            i = i + 1;
        }
        assert(digits@ =~= self.digits@);
        Real { negative: self.negative, digits, scale: self.scale }
    }
}

impl Clone for Real {
    fn clone(&self) -> (r: Real)
        ensures
            r@ == self@,
    {
        self.duplicate()
    }
}

/// The index of the first point in `s`; the length of `s` where it has none.
pub open spec fn first_point(s: Seq<u8>) -> nat
    decreases s.len(),
{
    if s.len() == 0 || s[0] == '.' as u8 {
        0
    } else {
        1 + first_point(s.skip(1))
    }
}

/// An index at which a point stands, with none before it, is the first point.
pub proof fn lemma_first_point_is(s: Seq<u8>, n: nat)
    requires
        n <= s.len(),
        n < s.len() ==> s[n as int] == '.' as u8,
        forall|i: int| 0 <= i < n ==> #[trigger] s[i] != '.' as u8,
    ensures
        first_point(s) == n,
    decreases n,
{
    if n > 0 {
        assert(s[0] != '.' as u8);
        assert forall|i: int| 0 <= i < n - 1 implies #[trigger] s.skip(1)[i] != '.' as u8 by {
            assert(s.skip(1)[i] == s[i + 1]);
        }
        lemma_first_point_is(s.skip(1), (n - 1) as nat);
    }
}

/// The values of the decimal digits `d`.
pub open spec fn digit_values(d: Seq<u8>) -> Seq<u8> {
    Seq::new(d.len(), |i: int| (d[i] - '0' as u8) as u8)
}

/// The real number that `t` spells: an optional sign, then digits with at
/// most one point among them, before them or after them, and at least one
/// digit.
pub open spec fn spec_parse_real(t: Seq<u8>) -> Option<RealModel> {
    if t.len() == 0 {
        None
    } else {
        let body = if t[0] == '-' as u8 || t[0] == '+' as u8 {
            t.skip(1)
        } else {
            t
        };
        let point = first_point(body);
        let whole = body.take(point as int);
        let fraction = if point < body.len() {
            body.skip((point + 1) as int)
        } else {
            Seq::<u8>::empty()
        };
        if all_digits(whole) && all_digits(fraction) && whole.len() + fraction.len() > 0 {
            Some(
                RealModel {
                    negative: t[0] == '-' as u8,
                    digits: digit_values(whole + fraction),
                    scale: fraction.len(),
                },
            )
        } else {
            None
        }
    }
}

/// The index of the first point in `data`.
fn find_point(data: &[u8]) -> (r: usize)
    ensures
        r == first_point(data@),
        r <= data@.len(),
{
    let mut i: usize = 0;
    while i < data.len() && data[i] != 0x2E
        invariant
            i <= data@.len(),
            forall|k: int| 0 <= k < i ==> #[trigger] data@[k] != '.' as u8,
        decreases data@.len() - i,
    {
        i = i + 1;
    }
    proof {
        lemma_first_point_is(data@, i as nat);
    }
    i
}

/// Appends the values of the digits `data` to `out`; `false`, with `out` in
/// no particular state, where a byte of `data` is no digit.
fn push_digits(out: &mut Vec<u8>, data: &[u8]) -> (r: bool)
    ensures
        r == all_digits(data@),
        r ==> final(out)@ == old(out)@ + digit_values(data@),
{
    let mut i: usize = 0;
    assert(out@ =~= old(out)@ + digit_values(data@.take(0)));
    while i < data.len()
        invariant
            i <= data@.len(),
            all_digits(data@.take(i as int)),
            out@ == old(out)@ + digit_values(data@.take(i as int)),
        decreases data@.len() - i,
    {
        let byte: u8 = data[i];
        if !(0x30 <= byte && byte <= 0x39) {
            assert(!spec_is_digit(data@[i as int]));
            return false;
        }
        out.push(byte - 0x30);
        proof {
            assert forall|k: int| 0 <= k < i + 1 implies spec_is_digit(
                #[trigger] data@.take(i + 1)[k],
            ) by {
                if k < i {
                    assert(data@.take(i + 1)[k] == data@.take(i as int)[k]);
                }
            }
            assert(out@ =~= old(out)@ + digit_values(data@.take(i + 1)));
        }
        i = i + 1;
    }
    assert(data@.take(i as int) =~= data@);
    true
}

/// Reads `text` as a decimal real number.
pub fn parse_real(text: &[u8]) -> (r: Option<Real>)
    ensures
        match spec_parse_real(text@) {
            Some(model) => r is Some && r->Some_0@ == model,
            None => r is None,
        },
{
    if text.len() == 0 {
        return None;
    }
    let negative: bool = text[0] == 0x2D;
    let body: &[u8] = if text[0] == 0x2D || text[0] == 0x2B {
        tail(text, 1)
    } else {
        text
    };
    let point: usize = find_point(body);
    let whole: &[u8] = head(body, point);
    let mut digits: Vec<u8> = Vec::new();
    if !push_digits(&mut digits, whole) {
        return None;
    }
    let mut scale: usize = 0;
    if point < body.len() {
        let fraction: &[u8] = tail(body, point + 1);
        if !push_digits(&mut digits, fraction) {
            return None;
        }
        scale = fraction.len();
    }
    if digits.len() == 0 {
        return None;
    }
    proof {
        let w = body@.take(point as int);
        let f = if point < body@.len() {
            body@.skip(point + 1)
        } else {
            Seq::<u8>::empty()
        };
        assert(digits@ =~= digit_values(w + f));
        assert(digit_values(Seq::<u8>::empty()) =~= Seq::<u8>::empty());
        assert forall|i: int| 0 <= i < digits@.len() implies #[trigger] digits@[i] <= 9 by {
            assert(spec_is_digit((w + f)[i]));
        }
    }
    Some(Real { negative, digits, scale })
}

impl<'a> Res<'a, Real> {
    /// The decimal real number that `data` spells, found with `remaining`
    /// after it; nothing found where `data` spells none.
    pub fn decimal(data: &[u8], remaining: &'a [u8]) -> (r: Res<'a, Real>)
        ensures
            match spec_parse_real(data@) {
                Some(model) => r matches Res::Found(f) && f.data@ == model && f.remaining
                    == remaining,
                None => r is NotFound,
            },
    {
        match parse_real(data) {
            Some(v) => Res::found(v, remaining),
            None => Res::NotFound,
        }
    }
}

/// A real number at the start of `s`: the number token, read as a decimal
/// real number.
pub open spec fn spec_float(s: Seq<u8>) -> Outcome<RealModel> {
    let n = token_len(s);
    if n == 0 {
        Outcome::NotFound
    } else {
        match spec_parse_real(s.take(n as int)) {
            Some(v) => Outcome::Found(v, s.skip(n as int)),
            None => Outcome::NotFound,
        }
    }
}

/// Recognizes a real number: an optional sign and decimal digits with at most
/// one point.
pub fn float<'a>(data: &'a [u8]) -> (r: Res<'a, Real>)
    ensures
        r.parsed(spec_float(data@)),
        r matches Res::Found(f) ==> f.remaining@.len() < data@.len(),
{
    let i: usize = token_end(data);
    if i == 0 {
        return Res::NotFound;
    }
    Res::decimal(head(data, i), tail(data, i))
}

} // verus!
