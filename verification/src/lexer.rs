//! The lexical layer of the PDF syntax: outcomes of recognizers, white space,
//! line ends, comments, keywords and numbers.
//!
//! A recognizer looks at the start of a byte slice. It finds its production
//! there and hands back a value with the bytes that remain, or it does not
//! find it, or it fails. What each one does is stated as a spec function from
//! the bytes to an `Outcome`.

use vstd::prelude::*;
use vstd::string::StringSliceAdditionalSpecFns;
use vstd::slice::slice_subrange;
use crate::error::Error;

verus! {

/// What a recognizer gives, as a value of the model: the value found with
/// the bytes that remain, nothing found, or a failure.
pub enum Outcome<V> {
    Found(V, Seq<u8>),
    NotFound,
    Error(Error),
}

impl<V> Outcome<V> {
    /// The same outcome with `f` applied to the value found.
    pub open spec fn map<W>(self, f: spec_fn(V) -> W) -> Outcome<W> {
        match self {
            Outcome::Found(v, rest) => Outcome::Found(f(v), rest),
            Outcome::NotFound => Outcome::NotFound,
            Outcome::Error(e) => Outcome::Error(e),
        }
    }

    /// The bytes that remain after the value found; `otherwise` where nothing
    /// was found.
    pub open spec fn rest_or(self, otherwise: Seq<u8>) -> Seq<u8> {
        match self {
            Outcome::Found(v, rest) => rest,
            _ => otherwise,
        }
    }
}

/// A value found, and the bytes that remain after it.
#[derive(Debug, PartialEq, Eq)]
pub struct Found<'a, T> {
    pub data: T,
    pub remaining: &'a [u8],
}

/// What a recognizer gives: the value found with the bytes that remain,
/// nothing found (another production may apply), or a failure, which ends the
/// productions around it.
#[derive(Debug, PartialEq, Eq)]
pub enum Res<'a, T> {
    Found(Found<'a, T>),
    NotFound,
    Error(Error),
}

impl<'a, T> Res<'a, T> {
    /// `data` found, with `remaining` after it.
    pub fn found(data: T, remaining: &'a [u8]) -> (r: Res<'a, T>)
        ensures
            r == Res::Found(Found { data, remaining }),
    {
        Res::Found(Found { data: data, remaining: remaining })
    }

    /// Whether a value was found.
    pub fn is_found(&self) -> (r: bool)
        ensures
            r == (self is Found),
    {
        match self {
            Res::Found(_) => true,
            _ => false,
        }
    }

    /// The value found and what remains after it.
    pub fn unwrap(self) -> (r: Found<'a, T>)
        requires
            self is Found,
        ensures
            self == Res::Found(r),
    {
        match self {
            Res::Found(result) => result,
            _ => vstd::pervasive::unreached(),
        }
    }

    /// The outcome with the value found replaced by what `mapper` makes of
    /// it; nothing found where `mapper` gives `None`.
    pub fn map<U, F: FnOnce(T) -> Option<U>>(self, mapper: F) -> (r: Res<'a, U>)
        requires
            self matches Res::Found(f) ==> call_requires(mapper, (f.data,)),
        ensures
            match self {
                Res::Found(f) => exists|o: Option<U>|
                    call_ensures(mapper, (f.data,), o) && r == match o {
                        Some(d) => Res::Found(Found { data: d, remaining: f.remaining }),
                        None => Res::NotFound,
                    },
                Res::NotFound => r == Res::<U>::NotFound,
                Res::Error(e) => r == Res::<U>::Error(e),
            },
    {
        match self {
            Res::Found(Found { data, remaining }) => {
                match mapper(data) {
                    Some(d) => Res::Found(Found { data: d, remaining }),
                    None => Res::NotFound,
                }
            },
            Res::NotFound => Res::NotFound,
            Res::Error(e) => Res::Error(e),
        }
    }
}

impl<'a, T: View> Res<'a, T> {
    /// Whether this is the outcome `expected`: the same value, by its view,
    /// with the same bytes remaining, or the same failure.
    pub open spec fn parsed(self, expected: Outcome<T::V>) -> bool {
        match (self, expected) {
            (Res::Found(f), Outcome::Found(v, rest)) => f.data@ == v && f.remaining@ == rest,
            (Res::NotFound, Outcome::NotFound) => true,
            (Res::Error(e), Outcome::Error(f)) => e == f,
            _ => false,
        }
    }
}

/// The bytes of `data` from index `from` on.
pub fn tail<'a>(data: &'a [u8], from: usize) -> (r: &'a [u8])
    requires
        from <= data@.len(),
    ensures
        r@ == data@.skip(from as int),
{
    slice_subrange(data, from, data.len())
}

/// The first `count` bytes of `data`.
pub fn head<'a>(data: &'a [u8], count: usize) -> (r: &'a [u8])
    requires
        count <= data@.len(),
    ensures
        r@ == data@.take(count as int),
{
    slice_subrange(data, 0, count)
}

/// Whether a byte is white space: NUL, HT, LF, FF, CR or SP.
pub open spec fn spec_is_whitespace(data: u8) -> bool {
    data == 0x00 || data == 0x09 || data == 0x0A || data == 0x0C || data == 0x0D || data == 0x20
}

/// Whether a byte is white space: NUL, HT, LF, FF, CR or SP.
pub fn is_whitespace(data: u8) -> (r: bool)
    ensures
        r == spec_is_whitespace(data),
{
    data == 0x00 || data == 0x09 || data == 0x0A || data == 0x0C || data == 0x0D || data == 0x20
}

/// A line end at the start of `s`: LF, or CR LF. A CR alone is none.
pub open spec fn spec_eol(s: Seq<u8>) -> Outcome<()> {
    if s.len() > 0 && s[0] == 0x0A {
        Outcome::Found((), s.skip(1))
    } else if s.len() > 1 && s[0] == 0x0D && s[1] == 0x0A {
        Outcome::Found((), s.skip(2))
    } else {
        Outcome::NotFound
    }
}

/// Recognizes a line end: LF, or CR LF.
pub fn eol<'a>(data: &'a [u8]) -> (r: Res<'a, ()>)
    ensures
        r.parsed(spec_eol(data@)),
{
    if data.len() == 0 {
        return Res::NotFound;
    }
    if data[0] == 0x0A {
        Res::found((), tail(data, 1))
    } else if data[0] == 0x0D {
        if data.len() > 1 && data[1] == 0x0A {
            Res::found((), tail(data, 2))
        } else {
            Res::NotFound
        }
    } else {
        Res::NotFound
    }
}

/// The bytes of `s` before its first line end, and the bytes after that line
/// end; all of `s` and nothing where it has no line end.
pub open spec fn spec_until_eol(s: Seq<u8>) -> (Seq<u8>, Seq<u8>)
    decreases s.len(),
{
    if s.len() == 0 {
        (Seq::empty(), s)
    } else {
        match spec_eol(s) {
            Outcome::Found(_, rest) => (Seq::empty(), rest),
            _ => {
                let (line, rest) = spec_until_eol(s.skip(1));
                (seq![s[0]] + line, rest)
            },
        }
    }
}

/// What follows a line is no longer than the bytes the line was taken from.
pub proof fn lemma_until_eol(s: Seq<u8>)
    ensures
        spec_until_eol(s).1.len() <= s.len(),
        spec_until_eol(s).0.len() <= s.len(),
    decreases s.len(),
{
    if s.len() > 0 {
        if !(spec_eol(s) is Found) {
            lemma_until_eol(s.skip(1));
        }
    }
}

/// Takes the bytes up to the first line end, and passes over that line end.
/// Always finds: at the end of the buffer the line is what is left.
pub fn until_eol<'a>(data: &'a [u8]) -> (r: Res<'a, Vec<u8>>)
    ensures
        r.parsed(Outcome::Found(spec_until_eol(data@).0, spec_until_eol(data@).1)),
{
    let mut cur: &[u8] = data;
    let mut result: Vec<u8> = Vec::new();
    assert(result@ + spec_until_eol(data@).0 =~= spec_until_eol(data@).0);
    while cur.len() > 0
        invariant
            spec_until_eol(data@).0 == result@ + spec_until_eol(cur@).0,
            spec_until_eol(data@).1 == spec_until_eol(cur@).1,
        decreases cur@.len(),
    {
        match eol(cur) {
            Res::Found(r) => {
                assert(result@ + Seq::<u8>::empty() =~= result@);
                return Res::found(result, r.remaining);
            },
            _ => {
                let ghost before = result@;
                let ghost line = spec_until_eol(cur@.skip(1)).0;
                result.push(cur[0]);
                assert(before + (seq![cur@[0]] + line) =~= result@ + line);
                cur = tail(cur, 1);
            },
        }
    }
    assert(result@ + Seq::<u8>::empty() =~= result@);
    Res::found(result, cur)
}

/// A comment at the start of `s`: `%` and the bytes up to the line end.
pub open spec fn spec_comment(s: Seq<u8>) -> Outcome<Seq<u8>> {
    if s.len() > 0 && s[0] == 0x25 {
        Outcome::Found(spec_until_eol(s.skip(1)).0, spec_until_eol(s.skip(1)).1)
    } else {
        Outcome::NotFound
    }
}

/// Recognizes a comment, `%` up to the line end, and gives its text without
/// the `%` and the line end.
pub fn comment<'a>(data: &'a [u8]) -> (r: Res<'a, Vec<u8>>)
    ensures
        r.parsed(spec_comment(data@)),
{
    if data.len() == 0 || data[0] != 0x25 {
        return Res::NotFound;
    }
    until_eol(tail(data, 1))
}

/// `expected` at the start of `s`.
pub open spec fn spec_exact(s: Seq<u8>, expected: Seq<u8>) -> Outcome<()> {
    if s.len() >= expected.len() && s.take(expected.len() as int) == expected {
        Outcome::Found((), s.skip(expected.len() as int))
    } else {
        Outcome::NotFound
    }
}

/// Recognizes the bytes `expected`.
pub fn exact_bytes<'a>(data: &'a [u8], expected: &[u8]) -> (r: Res<'a, ()>)
    ensures
        r.parsed(spec_exact(data@, expected@)),
{
    if data.len() < expected.len() {
        return Res::NotFound;
    }
    let mut i: usize = 0;
    while i < expected.len()
        invariant
            i <= expected@.len() <= data@.len(),
            forall|k: int| 0 <= k < i ==> data@[k] == expected@[k],
        decreases expected@.len() - i,
    {
        if data[i] != expected[i] {
            assert(data@.take(expected@.len() as int)[i as int] != expected@[i as int]);
            return Res::NotFound;
        }
        i = i + 1;
    }
    assert(data@.take(expected@.len() as int) =~= expected@);
    Res::found((), tail(data, expected.len()))
}

/// Recognizes the text `expected`, byte for byte.
pub fn exact<'a>(data: &'a [u8], expected: &str) -> (r: Res<'a, ()>)
    ensures
        r.parsed(spec_exact(data@, expected.spec_bytes())),
{
    exact_bytes(data, expected.as_bytes())
}

/// The bytes of the keyword `true`.
pub open spec fn keyword_true() -> Seq<u8> {
    seq!['t' as u8, 'r' as u8, 'u' as u8, 'e' as u8]
}

/// The bytes of the keyword `false`.
pub open spec fn keyword_false() -> Seq<u8> {
    seq!['f' as u8, 'a' as u8, 'l' as u8, 's' as u8, 'e' as u8]
}

/// The bytes of the keyword `null`.
pub open spec fn keyword_null() -> Seq<u8> {
    seq!['n' as u8, 'u' as u8, 'l' as u8, 'l' as u8]
}

/// A boolean at the start of `s`: `true` or `false`.
pub open spec fn spec_boolean(s: Seq<u8>) -> Outcome<bool> {
    match spec_exact(s, keyword_true()) {
        Outcome::Found(_, rest) => Outcome::Found(true, rest),
        _ => match spec_exact(s, keyword_false()) {
            Outcome::Found(_, rest) => Outcome::Found(false, rest),
            _ => Outcome::NotFound,
        },
    }
}

/// Recognizes a boolean: `true` or `false`.
pub fn boolean<'a>(data: &'a [u8]) -> (r: Res<'a, bool>)
    ensures
        r.parsed(spec_boolean(data@)),
        r matches Res::Found(f) ==> f.remaining@.len() < data@.len(),
{
    proof {
        reveal_strlit("true");
        reveal_strlit("false");
        vstd::string::is_ascii_spec_bytes("true");
        vstd::string::is_ascii_spec_bytes("false");
        assert("true".spec_bytes() =~= keyword_true());
        assert("false".spec_bytes() =~= keyword_false());
    }
    let is_true = exact(data, "true");
    if let Res::Found(result) = is_true {
        return Res::found(true, result.remaining);
    }
    let is_false = exact(data, "false");
    if let Res::Found(result) = is_false {
        return Res::found(false, result.remaining);
    }
    Res::NotFound
}

/// The null object at the start of `s`: `null`.
pub open spec fn spec_null(s: Seq<u8>) -> Outcome<()> {
    spec_exact(s, keyword_null())
}

/// Recognizes the null object: `null`.
pub fn null<'a>(data: &'a [u8]) -> (r: Res<'a, ()>)
    ensures
        r.parsed(spec_null(data@)),
        r matches Res::Found(f) ==> f.remaining@.len() < data@.len(),
{
    proof {
        reveal_strlit("null");
        vstd::string::is_ascii_spec_bytes("null");
        assert("null".spec_bytes() =~= keyword_null());
    }
    exact(data, "null")
}

/// `s` without the white space and the comments at its start.
pub open spec fn spec_consume_whitespace(s: Seq<u8>) -> Seq<u8>
    decreases s.len(),
    via spec_consume_whitespace_decreases
{
    if s.len() == 0 {
        s
    } else if spec_is_whitespace(s[0]) {
        spec_consume_whitespace(s.skip(1))
    } else {
        match spec_comment(s) {
            Outcome::Found(_, rest) => spec_consume_whitespace(rest),
            _ => s,
        }
    }
}

#[via_fn]
proof fn spec_consume_whitespace_decreases(s: Seq<u8>) {
    if s.len() > 0 {
        lemma_until_eol(s.skip(1));
    }
}

/// What is left after white space is no longer than what went in.
pub proof fn lemma_consume_whitespace(s: Seq<u8>)
    ensures
        spec_consume_whitespace(s).len() <= s.len(),
    decreases s.len(),
{
    if s.len() > 0 {
        if spec_is_whitespace(s[0]) {
            lemma_consume_whitespace(s.skip(1));
        } else if let Outcome::Found(_, rest) = spec_comment(s) {
            lemma_until_eol(s.skip(1));
            lemma_consume_whitespace(rest);
        }
    }
}

/// Passes over white space and comments, whether there are any or not.
pub fn consume_whitespace<'a>(data: &'a [u8]) -> (r: &'a [u8])
    ensures
        r@ == spec_consume_whitespace(data@),
        r@.len() <= data@.len(),
{
    let mut cur: &[u8] = data;
    loop
        invariant
            spec_consume_whitespace(data@) == spec_consume_whitespace(cur@),
            cur@.len() <= data@.len(),
        decreases cur@.len(),
    {
        if cur.len() == 0 {
            return cur;
        }
        if is_whitespace(cur[0]) {
            cur = tail(cur, 1);
        } else {
            proof {
                lemma_until_eol(cur@.skip(1));
            }
            match comment(cur) {
                Res::Found(r) => {
                    cur = r.remaining;
                },
                _ => {
                    return cur;
                },
            }
        }
    }
}

} // verus!
