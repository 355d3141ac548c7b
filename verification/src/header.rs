//! The frame of a file: the version header at its start, and `startxref`
//! and the end-of-file marker at its end.

use vstd::prelude::*;
use vstd::utf8::{valid_utf8, encode_utf8};
use vstd::string::StringSliceAdditionalSpecFns;
use crate::lexer::{
    Res,
    Found,
    Outcome,
    comment,
    spec_comment,
    exact,
    spec_exact,
    consume_whitespace,
    spec_consume_whitespace,
};
use crate::number::{nonnegative_integer, spec_nonnegative_integer};
use crate::text::{string_or, string_from_utf8, reads_as};

verus! {

/// The text that stands for bytes that are no valid UTF-8.
pub open spec fn unparsable_string() -> Seq<char> {
    "ERROR: Unparsable string."@
}

impl<'a> Res<'a, String> {
    /// The text that `data` encodes, found with `remaining` after it. Bytes
    /// that are no valid UTF-8 read as `ERROR: Unparsable string.`.
    pub fn string(data: Vec<u8>, remaining: &'a [u8]) -> (r: Res<'a, String>)
        ensures
            r matches Res::Found(f) && reads_as(f.data@, data@, unparsable_string()) && f.remaining
                == remaining,
    {
        Res::found(string_or(data, "ERROR: Unparsable string."), remaining)
    }
}

/// Recognizes a comment and gives its text as a string.
pub fn string_comment<'a>(data: &'a [u8]) -> (r: Res<'a, String>)
    ensures
        match spec_comment(data@) {
            Outcome::Found(text, rest) => r matches Res::Found(f) && reads_as(
                f.data@,
                text,
                unparsable_string(),
            ) && f.remaining@ == rest,
            Outcome::NotFound => r is NotFound,
            Outcome::Error(e) => r == Res::<String>::Error(e),
        },
{
    match comment(data) {
        Res::Found(f) => Res::string(f.data, f.remaining),
        Res::NotFound => Res::NotFound,
        Res::Error(e) => Res::Error(e),
    }
}

/// The version that a file declares.
#[derive(Clone, Debug, PartialEq, Eq)]
pub enum Version {
    V1,
    V1_1,
    V1_2,
    V1_3,
    V1_4,
    V1_5,
    V1_6,
    V1_7,
    V1_8,
    Newer(String),
}

/// The model of a version: for one that is not known by name, the bytes of
/// the header text.
pub enum VersionModel {
    V1,
    V1_1,
    V1_2,
    V1_3,
    V1_4,
    V1_5,
    V1_6,
    V1_7,
    V1_8,
    Newer(Seq<u8>),
}

impl View for Version {
    type V = VersionModel;

    open spec fn view(&self) -> VersionModel {
        match self {
            Version::V1 => VersionModel::V1,
            Version::V1_1 => VersionModel::V1_1,
            Version::V1_2 => VersionModel::V1_2,
            Version::V1_3 => VersionModel::V1_3,
            Version::V1_4 => VersionModel::V1_4,
            Version::V1_5 => VersionModel::V1_5,
            Version::V1_6 => VersionModel::V1_6,
            Version::V1_7 => VersionModel::V1_7,
            Version::V1_8 => VersionModel::V1_8,
            Version::Newer(text) => VersionModel::Newer(encode_utf8(text@)),
        }
    }
}

impl Version {
    /// A version that is not known by name, with the text of its header.
    pub fn newer(version: &str) -> (r: Version)
        ensures
            r@ == VersionModel::Newer(version.spec_bytes()),
    {
        Version::Newer(version.to_owned())
    }
}

/// The bytes of `PDF-1`, with which the text of a version header starts.
pub open spec fn version_prefix() -> Seq<u8> {
    seq!['P' as u8, 'D' as u8, 'F' as u8, '-' as u8, '1' as u8]
}

/// The version that the header text `text` declares: the one known by the
/// name `PDF-1.0` to `PDF-1.8`, or a newer one.
pub open spec fn version_of(text: Seq<u8>) -> VersionModel {
    if text.len() == 7 && text[5] == '.' as u8 {
        if text[6] == '0' as u8 {
            VersionModel::V1
        } else if text[6] == '1' as u8 {
            VersionModel::V1_1
        } else if text[6] == '2' as u8 {
            VersionModel::V1_2
        } else if text[6] == '3' as u8 {
            VersionModel::V1_3
        } else if text[6] == '4' as u8 {
            VersionModel::V1_4
        } else if text[6] == '5' as u8 {
            VersionModel::V1_5
        } else if text[6] == '6' as u8 {
            VersionModel::V1_6
        } else if text[6] == '7' as u8 {
            VersionModel::V1_7
        } else if text[6] == '8' as u8 {
            VersionModel::V1_8
        } else {
            VersionModel::Newer(text)
        }
    } else {
        VersionModel::Newer(text)
    }
}

/// The version header at the start of `s`: a comment whose text is valid
/// UTF-8 and starts with `PDF-1`.
pub open spec fn spec_version(s: Seq<u8>) -> Outcome<VersionModel> {
    match spec_comment(s) {
        Outcome::Found(text, rest) => {
            if valid_utf8(text) && spec_exact(text, version_prefix()) is Found {
                Outcome::Found(version_of(text), rest)
            } else {
                Outcome::NotFound
            }
        },
        Outcome::NotFound => Outcome::NotFound,
        Outcome::Error(e) => Outcome::Error(e),
    }
}

/// A copy of `data`.
pub fn copy_bytes(data: &[u8]) -> (r: Vec<u8>)
    ensures
        r@ == data@,
{
    let mut out: Vec<u8> = Vec::new();
    let mut i: usize = 0;
    while i < data.len()
        invariant
            i <= data@.len(),
            out@ == data@.take(i as int),
        decreases data@.len() - i,
    {
        out.push(data[i]);
        assert(out@ =~= data@.take(i + 1));
        i = i + 1;
    }
    assert(data@.take(i as int) =~= data@);
    out
}

/// Recognizes the version header: the comment `%PDF-1.` and a digit, or any
/// other comment that starts with `%PDF-1`.
pub fn version<'a>(data: &'a [u8]) -> (r: Res<'a, Version>)
    ensures
        r.parsed(spec_version(data@)),
{
    let found = match comment(data) {
        Res::Found(f) => f,
        Res::NotFound => {
            return Res::NotFound;
        },
        Res::Error(e) => {
            return Res::Error(e);
        },
    };
    let remaining: &[u8] = found.remaining;
    let text: Vec<u8> = found.data;
    proof {
        reveal_strlit("PDF-1");
        vstd::string::is_ascii_spec_bytes("PDF-1");
        assert("PDF-1".spec_bytes() =~= version_prefix());
    }
    if !exact(text.as_slice(), "PDF-1").is_found() {
        return Res::NotFound;
    }
    let known: Option<Version> = if text.len() == 7 && text[5] == 0x2E {
        let minor: u8 = text[6];
        if minor == 0x30 {
            Some(Version::V1)
        } else if minor == 0x31 {
            Some(Version::V1_1)
        } else if minor == 0x32 {
            Some(Version::V1_2)
        } else if minor == 0x33 {
            Some(Version::V1_3)
        } else if minor == 0x34 {
            Some(Version::V1_4)
        } else if minor == 0x35 {
            Some(Version::V1_5)
        } else if minor == 0x36 {
            Some(Version::V1_6)
        } else if minor == 0x37 {
            Some(Version::V1_7)
        } else if minor == 0x38 {
            Some(Version::V1_8)
        } else {
            None
        }
    } else {
        None
    };
    let ghost bytes = text@;
    match string_from_utf8(text) {
        None => Res::NotFound,
        Some(s) => match known {
            Some(v) => Res::found(v, remaining),
            None => Res::found(Version::Newer(s), remaining),
        },
    }
}

/// The bytes of `%EOF`, the text of the comment that ends a file.
pub open spec fn eof_text() -> Seq<u8> {
    seq!['%' as u8, 'E' as u8, 'O' as u8, 'F' as u8]
}

/// The end-of-file marker at the start of `s`: the comment `%%EOF`, with the
/// line end after it where there is one.
pub open spec fn spec_eof(s: Seq<u8>) -> Outcome<()> {
    match spec_comment(s) {
        Outcome::Found(text, rest) => if text == eof_text() {
            Outcome::Found((), rest)
        } else {
            Outcome::NotFound
        },
        Outcome::NotFound => Outcome::NotFound,
        Outcome::Error(e) => Outcome::Error(e),
    }
}

/// Recognizes the end-of-file marker `%%EOF`.
pub fn eof<'a>(data: &'a [u8]) -> (r: Res<'a, ()>)
    ensures
        r.parsed(spec_eof(data@)),
{
    let found = match comment(data) {
        Res::Found(f) => f,
        Res::NotFound => {
            return Res::NotFound;
        },
        Res::Error(e) => {
            return Res::Error(e);
        },
    };
    proof {
        reveal_strlit("%EOF");
        vstd::string::is_ascii_spec_bytes("%EOF");
        assert("%EOF".spec_bytes() =~= eof_text());
        assert(found.data@.take(found.data@.len() as int) =~= found.data@);
    }
    match exact(found.data.as_slice(), "%EOF") {
        Res::Found(rest) => {
            if rest.remaining.len() == 0 {
                Res::found((), found.remaining)
            } else {
                Res::NotFound
            }
        },
        _ => Res::NotFound,
    }
}

/// The bytes of the keyword `startxref`.
pub open spec fn keyword_startxref() -> Seq<u8> {
    seq![
        's' as u8,
        't' as u8,
        'a' as u8,
        'r' as u8,
        't' as u8,
        'x' as u8,
        'r' as u8,
        'e' as u8,
        'f' as u8,
    ]
}

/// The pointer to the cross-reference section at the start of `s`: the
/// keyword `startxref`, white space, and the offset as a non-negative integer.
pub open spec fn spec_startxref(s: Seq<u8>) -> Outcome<u64> {
    match spec_exact(s, keyword_startxref()) {
        Outcome::Found(_, rest) => spec_nonnegative_integer(spec_consume_whitespace(rest)),
        Outcome::NotFound => Outcome::NotFound,
        Outcome::Error(e) => Outcome::Error(e),
    }
}

/// Recognizes `startxref` and the offset that follows it.
pub fn startxref<'a>(data: &'a [u8]) -> (r: Res<'a, u64>)
    ensures
        r.parsed(spec_startxref(data@)),
{
    proof {
        reveal_strlit("startxref");
        vstd::string::is_ascii_spec_bytes("startxref");
        assert("startxref".spec_bytes() =~= keyword_startxref());
    }
    let after = match exact(data, "startxref") {
        Res::Found(f) => f.remaining,
        Res::NotFound => {
            return Res::NotFound;
        },
        Res::Error(e) => {
            return Res::Error(e);
        },
    };
    nonnegative_integer(consume_whitespace(after))
}

} // verus!
