//! Streams: the resolution of what their dictionaries refer to, their
//! recognition, and the decoding of their data.

use vstd::prelude::*;
use vstd::string::StringSliceAdditionalSpecFns;
use crate::error::Error;
use crate::bit_reader::{BitReader, ReadBits};
use crate::deflate::{rfc1950, spec_zlib, DEFAULT_OUTPUT_LIMIT};
use crate::header::copy_bytes;
use crate::lexer::{
    Res,
    Found,
    Outcome,
    head,
    tail,
    eol,
    spec_eol,
    exact,
    spec_exact,
    consume_whitespace,
    spec_consume_whitespace,
};
use crate::object::{
    Key,
    Filter,
    PdfObject,
    PdfDictionary,
    Stream,
    StreamMetadata,
    StreamModel,
    Object,
    objects_model,
    filter_names,
};
use crate::access::{bytes_eq, filter_map};
use crate::parse::{
    dictionary,
    spec_dictionary,
    Definition,
    definition_head,
    spec_definition_head,
    definition_tail,
    spec_definition_tail,
};

verus! {

/// What turns the key of an indirect object into the object, for the parts
/// of a stream dictionary that may be given by reference.
pub trait Resolver {
    /// The object under `key`, or the failure to get it.
    spec fn lookup(&self, key: Key) -> Result<Object, Error>;

    /// The object under `key`.
    fn resolve(&self, key: &Key) -> (r: Result<PdfObject, Error>)
        ensures
            match self.lookup(*key) {
                Ok(o) => r is Ok && r->Ok_0@ == o,
                Err(e) => r is Err && r->Err_0 == e,
            },
    ;
}

/// The resolver that resolves nothing: under each key it finds the
/// reference to that key.
pub struct Unresolved;

impl Resolver for Unresolved {
    open spec fn lookup(&self, key: Key) -> Result<Object, Error> {
        Ok(Object::Reference(key))
    }

    fn resolve(&self, key: &Key) -> (r: Result<PdfObject, Error>) {
        Ok(PdfObject::Reference(*key))
    }
}

/// One object of a table of objects, under its number.
#[derive(Debug, PartialEq)]
pub struct Numbered {
    pub number: u64,
    pub object: PdfObject,
}

/// The object that the first `n` of `entries` hold under `number`: that of
/// the last of them with this number, or null.
pub open spec fn numbered_lookup(entries: Seq<Numbered>, n: nat, number: u64) -> Object
    decreases n,
{
    if n == 0 || n > entries.len() {
        Object::Null
    } else if entries[n - 1].number == number {
        entries[n - 1].object@
    } else {
        numbered_lookup(entries, (n - 1) as nat, number)
    }
}

/// The resolver over a table of objects that are at hand, by their numbers.
/// A number that the table lacks resolves to null.
pub struct Objects {
    pub objects: Vec<Numbered>,
}

impl Resolver for Objects {
    open spec fn lookup(&self, key: Key) -> Result<Object, Error> {
        Ok(numbered_lookup(self.objects@, self.objects@.len(), key.object))
    }

    fn resolve(&self, key: &Key) -> (r: Result<PdfObject, Error>) {
        let mut i: usize = self.objects.len();
        while i > 0
            invariant
                i <= self.objects@.len(),
                numbered_lookup(self.objects@, self.objects@.len(), key.object) == numbered_lookup(
                    self.objects@,
                    i as nat,
                    key.object,
                ),
            decreases i,
        {
            i = i - 1;
            if self.objects[i].number == key.object {
                return Ok(self.objects[i].object.duplicate());
            }
        }
        Ok(PdfObject::Null)
    }
}

/// The object itself, or what a reference resolves to.
pub open spec fn spec_deref(o: Object, lookup: spec_fn(Key) -> Result<Object, Error>) -> Result<
    Object,
    Error,
> {
    match o {
        Object::Reference(key) => lookup(key),
        other => Ok(other),
    }
}

/// The object itself, or what a reference resolves to.
pub fn deref<R: Resolver>(o: &PdfObject, resolver: &R) -> (r: Result<PdfObject, Error>)
    ensures
        match spec_deref(o@, |k: Key| resolver.lookup(k)) {
            Ok(m) => r is Ok && r->Ok_0@ == m,
            Err(e) => r is Err && r->Err_0 == e,
        },
{
    match o {
        PdfObject::Reference(key) => resolver.resolve(key),
        other => Ok(other.duplicate()),
    }
}

/// The standard filter that `name` names, if it names one.
pub open spec fn is_standard_filter(name: Seq<u8>) -> bool {
    name == "ASCIIHexDecode".spec_bytes() || name == "ASCII85Decode".spec_bytes() || name
        == "LZWDecode".spec_bytes() || name == "FlateDecode".spec_bytes() || name
        == "RunLengthDecode".spec_bytes() || name == "CCITTFaxDecode".spec_bytes() || name
        == "JBIG2Decode".spec_bytes() || name == "DCTDecode".spec_bytes() || name
        == "JPXDecode".spec_bytes() || name == "Crypt".spec_bytes()
}

impl Filter {
    /// The filter with the name `name`.
    pub fn named(name: &[u8]) -> (r: Filter)
        ensures
            r@ == name@,
            r is Other <==> !is_standard_filter(name@),
    {
        if bytes_eq(name, "ASCIIHexDecode".as_bytes()) {
            Filter::ASCIIHexDecode
        } else if bytes_eq(name, "ASCII85Decode".as_bytes()) {
            Filter::ASCII85Decode
        } else if bytes_eq(name, "LZWDecode".as_bytes()) {
            Filter::LZWDecode
        } else if bytes_eq(name, "FlateDecode".as_bytes()) {
            Filter::FlateDecode
        } else if bytes_eq(name, "RunLengthDecode".as_bytes()) {
            Filter::RunLengthDecode
        } else if bytes_eq(name, "CCITTFaxDecode".as_bytes()) {
            Filter::CCITTFaxDecode
        } else if bytes_eq(name, "JBIG2Decode".as_bytes()) {
            Filter::JBIG2Decode
        } else if bytes_eq(name, "DCTDecode".as_bytes()) {
            Filter::DCTDecode
        } else if bytes_eq(name, "JPXDecode".as_bytes()) {
            Filter::JPXDecode
        } else if bytes_eq(name, "Crypt".as_bytes()) {
            Filter::Crypt
        } else {
            Filter::Other(copy_bytes(name))
        }
    }

    /// The filter that the name object `obj` names; none where `obj` is no
    /// name.
    pub fn from(obj: &PdfObject) -> (r: Option<Filter>)
        ensures
            match obj@.as_identifier() {
                Some(name) => r is Some && r->Some_0@ == name,
                None => r is None,
            },
    {
        match obj.as_identifier() {
            Some(name) => Some(Filter::named(name.as_slice())),
            None => None,
        }
    }

    /// The filters that `obj` names: one for a name; for an array, one for
    /// each name among its items; none where `obj` is neither.
    pub fn from_vec(obj: &PdfObject) -> (r: Option<Vec<Filter>>)
        ensures
            match filters_of(obj@) {
                Some(names) => r is Some && filter_names(r->Some_0@) == names,
                None => r is None,
            },
    {
        match obj.as_identifier() {
            Some(name) => {
                let mut out: Vec<Filter> = Vec::new();
                out.push(Filter::named(name.as_slice()));
                assert(filter_names(out@) =~= seq![name@]);
                return Some(out);
            },
            None => {},
        }
        let items = match obj.as_array() {
            Some(items) => items,
            None => {
                return None;
            },
        };
        let ghost f = |o: Object| o.as_identifier();
        let mut out: Vec<Filter> = Vec::new();
        let mut i: usize = 0;
        assert(objects_model(items@).take(0) =~= Seq::<Object>::empty());
        assert(filter_names(out@) =~= Seq::<Seq<u8>>::empty());
        while i < items.len()
            invariant
                i <= items@.len(),
                f == (|o: Object| o.as_identifier()),
                filter_names(out@) == filter_map(objects_model(items@).take(i as int), f),
            decreases items@.len() - i,
        {
            let ghost before = filter_names(out@);
            proof {
                let all = objects_model(items@);
                assert(all.take(i + 1).drop_last() =~= all.take(i as int));
                assert(all.take(i + 1).last() == items@[i as int]@);
            }
            match Filter::from(&items[i]) {
                Some(v) => {
                    out.push(v);
                    assert(filter_names(out@) =~= before.push(v@));
                },
                None => {},
            }
            i = i + 1;
        }
        assert(objects_model(items@).take(i as int) =~= objects_model(items@));
        Some(out)
    }
}

/// The names of the filters that the object `o` names.
pub open spec fn filters_of(o: Object) -> Option<Seq<Seq<u8>>> {
    match o {
        Object::Identifier(name) => Some(seq![name]),
        Object::Array(items) => Some(filter_map(items, |o: Object| o.as_identifier())),
        _ => None,
    }
}

/// The length that the stream dictionary `dict` gives, directly or by
/// reference. `MissingLength` where it gives none that is an integer and not
/// negative.
pub open spec fn spec_length(
    dict: Map<Seq<u8>, Object>,
    lookup: spec_fn(Key) -> Result<Object, Error>,
) -> Result<nat, Error> {
    if !dict.contains_key("Length".spec_bytes()) {
        Err(Error::MissingLength)
    } else {
        match spec_deref(dict["Length".spec_bytes()], lookup) {
            Err(e) => Err(e),
            Ok(Object::Integer(n)) => if n >= 0 {
                Ok(n as nat)
            } else {
                Err(Error::MissingLength)
            },
            Ok(_) => Err(Error::MissingLength),
        }
    }
}

/// The names of the filters that the stream dictionary `dict` gives, directly
/// or by reference; none where it has no `Filter` entry or one that is
/// neither a name nor an array.
pub open spec fn spec_filters(
    dict: Map<Seq<u8>, Object>,
    lookup: spec_fn(Key) -> Result<Object, Error>,
) -> Result<Seq<Seq<u8>>, Error> {
    if !dict.contains_key("Filter".spec_bytes()) {
        Ok(Seq::empty())
    } else {
        match spec_deref(dict["Filter".spec_bytes()], lookup) {
            Err(e) => Err(e),
            Ok(o) => Ok(
                match filters_of(o) {
                    Some(names) => names,
                    None => Seq::empty(),
                },
            ),
        }
    }
}

impl StreamMetadata {
    /// What `dictionary` says of its stream, with `resolver` for what it
    /// gives by reference.
    pub fn resolved<R: Resolver>(dictionary: PdfDictionary, resolver: &R) -> (r: Result<
        StreamMetadata,
        Error,
    >)
        ensures
            match spec_length(dictionary@, |k: Key| resolver.lookup(k)) {
                Err(e) => r is Err && r->Err_0 == e,
                Ok(length) => match spec_filters(dictionary@, |k: Key| resolver.lookup(k)) {
                    Err(e) => r is Err && r->Err_0 == e,
                    Ok(names) => r is Ok && r->Ok_0.length == length && filter_names(
                        r->Ok_0.filters@,
                    ) == names && r->Ok_0.dictionary == dictionary,
                },
            },
    {
        let length: u64 = match dictionary.get("Length") {
            None => {
                return Err(Error::MissingLength);
            },
            Some(o) => match deref(o, resolver) {
                Err(e) => {
                    return Err(e);
                },
                Ok(PdfObject::Integer(n)) => {
                    if n >= 0 {
                        n as u64
                    } else {
                        return Err(Error::MissingLength);
                    }
                },
                Ok(_) => {
                    return Err(Error::MissingLength);
                },
            },
        };
        let filters: Vec<Filter> = match dictionary.get("Filter") {
            None => {
                let none: Vec<Filter> = Vec::new();
                assert(filter_names(none@) =~= Seq::<Seq<u8>>::empty());
                none
            },
            Some(o) => match deref(o, resolver) {
                Err(e) => {
                    return Err(e);
                },
                Ok(named) => match Filter::from_vec(&named) {
                    Some(found) => found,
                    None => {
                        let none: Vec<Filter> = Vec::new();
                        assert(filter_names(none@) =~= Seq::<Seq<u8>>::empty());
                        none
                    },
                },
            },
        };
        Ok(StreamMetadata { length, filters, dictionary })
    }

    /// What `dictionary` says of its stream, where it gives its length
    /// directly.
    pub fn from(dictionary: PdfDictionary) -> (r: Option<StreamMetadata>)
        ensures
            match spec_length(dictionary@, |k: Key| Unresolved.lookup(k)) {
                Err(e) => r is None,
                Ok(length) => r is Some && r->Some_0.length == length && spec_filters(
                    dictionary@,
                    |k: Key| Unresolved.lookup(k),
                ) == Ok::<Seq<Seq<u8>>, Error>(filter_names(r->Some_0.filters@))
                    && r->Some_0.dictionary == dictionary,
            },
    {
        match StreamMetadata::resolved(dictionary, &Unresolved) {
            Ok(m) => Some(m),
            Err(_) => None,
        }
    }
}

/// The bytes of the keyword `stream`.
pub open spec fn keyword_stream() -> Seq<u8> {
    seq!['s' as u8, 't' as u8, 'r' as u8, 'e' as u8, 'a' as u8, 'm' as u8]
}

/// The bytes of the keyword `endstream`.
pub open spec fn keyword_endstream() -> Seq<u8> {
    seq![
        'e' as u8,
        'n' as u8,
        'd' as u8,
        's' as u8,
        't' as u8,
        'r' as u8,
        'e' as u8,
        'a' as u8,
        'm' as u8,
    ]
}

/// The start of a stream at the start of `s`: a dictionary, white space, the
/// keyword `stream` and one line end.
pub open spec fn spec_stream_head(s: Seq<u8>) -> Outcome<Map<Seq<u8>, Object>> {
    match spec_dictionary(s) {
        Outcome::Found(dict, r1) => match spec_exact(
            spec_consume_whitespace(r1),
            keyword_stream(),
        ) {
            Outcome::Found(_, r2) => match spec_eol(r2) {
                Outcome::Found(_, r3) => Outcome::Found(dict, r3),
                Outcome::NotFound => Outcome::NotFound,
                Outcome::Error(e) => Outcome::Error(e),
            },
            Outcome::NotFound => Outcome::NotFound,
            Outcome::Error(e) => Outcome::Error(e),
        },
        Outcome::NotFound => Outcome::NotFound,
        Outcome::Error(e) => Outcome::Error(e),
    }
}

/// The data of a stream of `length` bytes at the start of `s`, and what
/// remains after them, an optional line end and the keyword `endstream`.
/// `UnexpectedEof` where fewer than `length` bytes are there.
pub open spec fn spec_stream_body(s: Seq<u8>, length: nat) -> Outcome<Seq<u8>> {
    if s.len() < length {
        Outcome::Error(Error::UnexpectedEof)
    } else {
        let after = s.skip(length as int);
        match spec_exact(spec_eol(after).rest_or(after), keyword_endstream()) {
            Outcome::Found(_, rest) => Outcome::Found(s.take(length as int), rest),
            Outcome::NotFound => Outcome::NotFound,
            Outcome::Error(e) => Outcome::Error(e),
        }
    }
}

/// A stream at the start of `s`: a dictionary, the keyword `stream`, a line
/// end, as many bytes as the dictionary gives as `Length`, an optional line
/// end and the keyword `endstream`. `lookup` resolves what the dictionary
/// gives by reference; it is asked for `Length` and for `Filter` only, and
/// only once the keyword `stream` was found.
pub open spec fn spec_stream(s: Seq<u8>, lookup: spec_fn(Key) -> Result<Object, Error>) -> Outcome<
    StreamModel,
> {
    match spec_stream_head(s) {
        Outcome::Found(dict, r1) => match spec_length(dict, lookup) {
            Err(e) => Outcome::Error(e),
            Ok(length) => match spec_filters(dict, lookup) {
                Err(e) => Outcome::Error(e),
                Ok(filters) => match spec_stream_body(r1, length) {
                    Outcome::Found(data, rest) => Outcome::Found(
                        StreamModel { data, length, filters, dictionary: dict, decoded: false },
                        rest,
                    ),
                    Outcome::NotFound => Outcome::NotFound,
                    Outcome::Error(e) => Outcome::Error(e),
                },
            },
        },
        Outcome::NotFound => Outcome::NotFound,
        Outcome::Error(e) => Outcome::Error(e),
    }
}

impl Stream {
    /// The stream of the data `data`, not decoded, with what its dictionary
    /// says of it.
    pub fn new(data: &[u8], metadata: StreamMetadata) -> (r: Stream)
        ensures
            r.data@ == data@,
            r.metadata == metadata,
            !r.decoded,
    {
        Stream { data: copy_bytes(data), metadata, decoded: false }
    }
}

/// Recognizes the start of a stream: its dictionary, the keyword `stream`
/// and the line end after it.
pub fn stream_head<'a>(data: &'a [u8]) -> (r: Res<'a, PdfDictionary>)
    ensures
        r.parsed(spec_stream_head(data@)),
        r matches Res::Found(f) ==> f.remaining@.len() < data@.len(),
{
    let dict = match dictionary(data) {
        Res::Found(f) => f,
        Res::NotFound => {
            return Res::NotFound;
        },
        Res::Error(e) => {
            return Res::Error(e);
        },
    };
    proof {
        reveal_strlit("stream");
        vstd::string::is_ascii_spec_bytes("stream");
        assert("stream".spec_bytes() =~= keyword_stream());
    }
    let after = match exact(consume_whitespace(dict.remaining), "stream") {
        Res::Found(f) => f.remaining,
        Res::NotFound => {
            return Res::NotFound;
        },
        Res::Error(e) => {
            return Res::Error(e);
        },
    };
    match eol(after) {
        Res::Found(f) => Res::found(dict.data, f.remaining),
        Res::NotFound => Res::NotFound,
        Res::Error(e) => Res::Error(e),
    }
}

/// Recognizes the data of a stream of `length` bytes and the keyword
/// `endstream` after them, and gives the data as they stand.
pub fn stream_body<'a>(data: &'a [u8], length: u64) -> (r: Res<'a, &'a [u8]>)
    ensures
        match spec_stream_body(data@, length as nat) {
            Outcome::Found(body, rest) => r matches Res::Found(f) && f.data@ == body
                && f.remaining@ == rest,
            Outcome::NotFound => r is NotFound,
            Outcome::Error(e) => r matches Res::Error(f) && f == e,
        },
        r matches Res::Found(f) ==> f.remaining@.len() < data@.len(),
{
    if (data.len() as u64) < length {
        return Res::Error(Error::UnexpectedEof);
    }
    let count: usize = length as usize;
    let body: &[u8] = head(data, count);
    let after: &[u8] = tail(data, count);
    let before_keyword: &[u8] = match eol(after) {
        Res::Found(f) => f.remaining,
        _ => after,
    };
    proof {
        reveal_strlit("endstream");
        vstd::string::is_ascii_spec_bytes("endstream");
        assert("endstream".spec_bytes() =~= keyword_endstream());
    }
    match exact(before_keyword, "endstream") {
        Res::Found(f) => Res::found(body, f.remaining),
        Res::NotFound => Res::NotFound,
        Res::Error(e) => Res::Error(e),
    }
}

/// Recognizes a stream. `resolve` is asked for the length and the filters
/// where the dictionary gives them by reference.
pub fn stream<'a, R: Resolver>(data: &'a [u8], resolve: &R) -> (r: Res<'a, Stream>)
    ensures
        r.parsed(spec_stream(data@, |k: Key| resolve.lookup(k))),
        r matches Res::Found(f) ==> f.remaining@.len() < data@.len(),
{
    let start = match stream_head(data) {
        Res::Found(f) => f,
        Res::NotFound => {
            return Res::NotFound;
        },
        Res::Error(e) => {
            return Res::Error(e);
        },
    };
    let metadata = match StreamMetadata::resolved(start.data, resolve) {
        Ok(m) => m,
        Err(e) => {
            return Res::Error(e);
        },
    };
    match stream_body(start.remaining, metadata.length) {
        Res::Found(f) => Res::found(Stream::new(f.data, metadata), f.remaining),
        Res::NotFound => Res::NotFound,
        Res::Error(e) => Res::Error(e),
    }
}

/// The definition of an indirect stream at the start of `s`: `N G obj`, a
/// stream, `endobj`.
pub open spec fn spec_stream_definition(
    s: Seq<u8>,
    lookup: spec_fn(Key) -> Result<Object, Error>,
) -> Outcome<(Key, Object)> {
    match spec_definition_head(s) {
        Outcome::Found(key, r1) => match spec_stream(r1, lookup) {
            Outcome::Found(stream, r2) => match spec_definition_tail(r2) {
                Outcome::Found(_, r3) => Outcome::Found((key, Object::Stream(stream)), r3),
                Outcome::NotFound => Outcome::NotFound,
                Outcome::Error(e) => Outcome::Error(e),
            },
            Outcome::NotFound => Outcome::NotFound,
            Outcome::Error(e) => Outcome::Error(e),
        },
        Outcome::NotFound => Outcome::NotFound,
        Outcome::Error(e) => Outcome::Error(e),
    }
}

/// Recognizes the definition of an indirect object that is a stream.
pub fn stream_definition<'a, R: Resolver>(data: &'a [u8], resolve: &R) -> (r: Res<'a, Definition>)
    ensures
        r.parsed(spec_stream_definition(data@, |k: Key| resolve.lookup(k))),
{
    let start = match definition_head(data) {
        Res::Found(f) => f,
        Res::NotFound => {
            return Res::NotFound;
        },
        Res::Error(e) => {
            return Res::Error(e);
        },
    };
    let found = match stream(start.remaining, resolve) {
        Res::Found(f) => f,
        Res::NotFound => {
            return Res::NotFound;
        },
        Res::Error(e) => {
            return Res::Error(e);
        },
    };
    match definition_tail(found.remaining) {
        Res::Found(f) => Res::found(
            Definition::new(start.data, PdfObject::Stream(found.data)),
            f.remaining,
        ),
        Res::NotFound => Res::NotFound,
        Res::Error(e) => Res::Error(e),
    }
}

/// Why filters could not be applied: one of them cannot be applied at all,
/// or one failed on its input.
pub enum FilterFailure {
    Unsupported(Seq<u8>),
    Failed(Error),
}

/// The data that the filter `name` makes of `data`. `FlateDecode` inflates a
/// zlib stream; no other filter can be applied.
pub open spec fn spec_apply_filter(name: Seq<u8>, data: Seq<u8>) -> Result<Seq<u8>, FilterFailure> {
    if name == "FlateDecode".spec_bytes() {
        match spec_zlib(data, 0, DEFAULT_OUTPUT_LIMIT as nat) {
            Ok((out, end)) => Ok(out),
            Err(e) => Err(FilterFailure::Failed(e)),
        }
    } else {
        Err(FilterFailure::Unsupported(name))
    }
}

/// The data that the filters `names`, applied from the first on, each to
/// what the one before it gave, make of `data`.
pub open spec fn spec_apply_filters(names: Seq<Seq<u8>>, data: Seq<u8>) -> Result<
    Seq<u8>,
    FilterFailure,
>
    decreases names.len(),
{
    if names.len() == 0 {
        Ok(data)
    } else {
        match spec_apply_filter(names[0], data) {
            Ok(out) => spec_apply_filters(names.skip(1), out),
            Err(e) => Err(e),
        }
    }
}

/// Whether `r` is the failure `expected`.
pub open spec fn fails_as(r: Result<(), Error>, expected: FilterFailure) -> bool {
    match expected {
        FilterFailure::Unsupported(name) => r matches Err(Error::UnsupportedFilter(n)) && n@
            == name,
        FilterFailure::Failed(e) => r matches Err(f) && f == e,
    }
}

/// The data of a stream after its filters, where they have not been applied
/// yet.
pub open spec fn spec_decoded(stream: StreamModel) -> Result<Seq<u8>, FilterFailure> {
    if stream.decoded {
        Ok(stream.data)
    } else {
        spec_apply_filters(stream.filters, stream.data)
    }
}

/// Inflates the zlib stream `data`.
pub fn flate_decode(data: Vec<u8>) -> (r: Result<Vec<u8>, Error>)
    ensures
        match spec_zlib(data@, 0, DEFAULT_OUTPUT_LIMIT as nat) {
            Ok((out, end)) => r is Ok && r->Ok_0@ == out,
            Err(e) => r is Err && r->Err_0 == e,
        },
{
    let mut reader = BitReader::new(data);
    rfc1950(&mut reader)
}

/// Whether `r` is the outcome `expected` of one filter.
pub open spec fn filtered_as(r: Result<Vec<u8>, Error>, expected: Result<Seq<u8>, FilterFailure>) -> bool {
    match expected {
        Ok(out) => r is Ok && r->Ok_0@ == out,
        Err(FilterFailure::Unsupported(name)) => r matches Err(Error::UnsupportedFilter(n)) && n@
            == name,
        Err(FilterFailure::Failed(e)) => r matches Err(f) && f == e,
    }
}

/// Applies one filter to `data`.
pub fn apply_filter(filter: &Filter, data: Vec<u8>) -> (r: Result<Vec<u8>, Error>)
    ensures
        filtered_as(r, spec_apply_filter(filter@, data@)),
{
    let name: Vec<u8> = filter_name(filter);
    if bytes_eq(name.as_slice(), "FlateDecode".as_bytes()) {
        flate_decode(data)
    } else {
        Err(Error::UnsupportedFilter(name))
    }
}

impl Stream {
    /// Replaces the data by what `FlateDecode` makes of them. Leaves the
    /// stream as it is where that fails.
    pub fn apply_flate_decode(&mut self) -> (r: Result<(), Error>)
        ensures
            match spec_zlib(old(self).data@, 0, DEFAULT_OUTPUT_LIMIT as nat) {
                Ok((out, end)) => r is Ok && final(self).data@ == out,
                Err(e) => r is Err && r->Err_0 == e && final(self).data@ == old(self).data@,
            },
            final(self).metadata == old(self).metadata,
            final(self).decoded == old(self).decoded,
    {
        let decoded = match flate_decode(copy_bytes(self.data.as_slice())) {
            Ok(v) => v,
            Err(e) => {
                return Err(e);
            },
        };
        self.data = decoded;
        Ok(())
    }

    /// Applies the filters of the stream to its data, from the first on, and
    /// marks the stream as decoded. Does nothing to a stream that is decoded.
    /// Leaves the stream as it is where a filter fails, and fails with
    /// `UnsupportedFilter` at a filter other than `FlateDecode`.
    pub fn apply_filters(&mut self) -> (r: Result<(), Error>)
        ensures
            final(self).metadata == old(self).metadata,
            match spec_decoded(old(self)@) {
                Ok(out) => r is Ok && final(self).data@ == out && final(self).decoded,
                Err(failure) => fails_as(r, failure) && final(self).data@ == old(self).data@
                    && final(self).decoded == old(self).decoded,
            },
    {
        if self.decoded {
            return Ok(());
        }
        let mut current: Vec<u8> = copy_bytes(self.data.as_slice());
        let mut i: usize = 0;
        let ghost names = filter_names(self.metadata.filters@);
        assert(names.skip(0) =~= names);
        while i < self.metadata.filters.len()
            invariant
                i <= self.metadata.filters@.len(),
                *self == *old(self),
                !self.decoded,
                names == filter_names(self.metadata.filters@),
                spec_apply_filters(names, self.data@) == spec_apply_filters(
                    names.skip(i as int),
                    current@,
                ),
            decreases self.metadata.filters@.len() - i,
        {
            proof {
                assert(names.skip(i as int)[0] == self.metadata.filters@[i as int]@);
                assert(names.skip(i as int).skip(1) =~= names.skip(i + 1));
            }
            current = match apply_filter(&self.metadata.filters[i], current) {
                Ok(v) => v,
                Err(e) => {
                    return Err(e);
                },
            };
            i = i + 1;
        }
        self.data = current;
        self.decoded = true;
        Ok(())
    }
}

/// Decodes a stream: applies its filters to its data, once.
pub fn decode_stream(stream: &mut Stream) -> (r: Result<(), Error>)
    ensures
        final(stream).metadata == old(stream).metadata,
        match spec_decoded(old(stream)@) {
            Ok(out) => r is Ok && final(stream).data@ == out && final(stream).decoded,
            Err(failure) => fails_as(r, failure) && final(stream).data@ == old(stream).data@
                && final(stream).decoded == old(stream).decoded,
        },
{
    stream.apply_filters()
}

/// The name of a filter.
pub fn filter_name(filter: &Filter) -> (r: Vec<u8>)
    ensures
        r@ == filter@,
{
    match filter {
        Filter::ASCIIHexDecode => copy_bytes("ASCIIHexDecode".as_bytes()),
        Filter::ASCII85Decode => copy_bytes("ASCII85Decode".as_bytes()),
        Filter::LZWDecode => copy_bytes("LZWDecode".as_bytes()),
        Filter::FlateDecode => copy_bytes("FlateDecode".as_bytes()),
        Filter::RunLengthDecode => copy_bytes("RunLengthDecode".as_bytes()),
        Filter::CCITTFaxDecode => copy_bytes("CCITTFaxDecode".as_bytes()),
        Filter::JBIG2Decode => copy_bytes("JBIG2Decode".as_bytes()),
        Filter::DCTDecode => copy_bytes("DCTDecode".as_bytes()),
        Filter::JPXDecode => copy_bytes("JPXDecode".as_bytes()),
        Filter::Crypt => copy_bytes("Crypt".as_bytes()),
        Filter::Other(name) => copy_bytes(name.as_slice()),
    }
}

} // verus!
