//! The document: its loading from a buffer, and the resolution of the keys
//! of indirect objects into objects.
//!
//! A document holds the buffer, the cross-reference map and a cache of the
//! objects that were asked for. What a key resolves to is a function of the
//! buffer and the map alone; the cache only saves the work of finding it
//! again.

use std::collections::HashMap;
use vstd::prelude::*;
use crate::error::Error;
use crate::header::{
    Version,
    VersionModel,
    version,
    spec_version,
    eof,
    spec_eof,
    startxref,
    spec_startxref,
    copy_bytes,
};
use crate::lexer::{
    Res,
    Found,
    Outcome,
    tail,
    eol,
    spec_eol,
    consume_whitespace,
    spec_consume_whitespace,
};
use vstd::string::StringSliceAdditionalSpecFns;
use crate::decimal::Real;
use crate::object::{Key, PdfObject, PdfDictionary, Object, objects_model, lemma_array_model};
use crate::access::filter_map;
use crate::parse::{definition, spec_definition, Definition};
use crate::stream::{Resolver, stream_definition, spec_stream_definition};
use crate::xref::{
    Xref,
    XrefType,
    xref_table,
    spec_xref_table,
    xref_stream,
    spec_xref_stream,
    trailer,
    spec_trailer,
};

verus! {

broadcast use vstd::std_specs::hash::group_hash_axioms;

/// What stands in the file at the place that the map gives for `key`, read
/// with `read`: nothing for a key that the map lacks, or whose entry is not
/// in use, or whose offset is beyond the buffer.
pub open spec fn object_at(
    xref: Map<u64, Xref>,
    data: Seq<u8>,
    key: Key,
    read: spec_fn(Seq<u8>) -> Result<Object, Error>,
) -> Result<Object, Error> {
    if !xref.contains_key(key.object) {
        Ok(Object::Null)
    } else if !(xref[key.object].type_ is InUse) {
        Ok(Object::Null)
    } else if xref[key.object].offset > data.len() {
        Ok(Object::Null)
    } else {
        read(data.skip(xref[key.object].offset as int))
    }
}

/// The object that is defined at the start of `s`, where it is defined
/// there under `key`: null where nothing is defined there, `XrefMismatch`
/// where what is defined there has another key.
pub open spec fn defined_as(found: Outcome<(Key, Object)>, key: Key) -> Result<Object, Error> {
    match found {
        Outcome::Found((k, object), rest) => if k == key {
            Ok(object)
        } else {
            Err(Error::XrefMismatch)
        },
        Outcome::NotFound => Ok(Object::Null),
        Outcome::Error(e) => Err(e),
    }
}

/// What `key` resolves to where only an object that is no stream can stand
/// for it: this is how the length and the filters of a stream are resolved.
pub open spec fn plain_object_at(xref: Map<u64, Xref>, data: Seq<u8>, key: Key) -> Result<
    Object,
    Error,
> {
    object_at(xref, data, key, |s: Seq<u8>| defined_as(spec_definition(s), key))
}

/// What the keys in the dictionary of the stream under `current` resolve to:
/// `CycleInMetadata` for the key of the stream itself.
pub open spec fn metadata_lookup(xref: Map<u64, Xref>, data: Seq<u8>, current: Key) -> spec_fn(
    Key,
) -> Result<Object, Error> {
    |k: Key|
        if k == current {
            Err(Error::CycleInMetadata)
        } else {
            plain_object_at(xref, data, k)
        }
}

/// The object under `key` as it is defined at the start of `s`: a stream,
/// or else any other object.
pub open spec fn read_definition(xref: Map<u64, Xref>, data: Seq<u8>, key: Key, s: Seq<u8>) -> Result<
    Object,
    Error,
> {
    match spec_stream_definition(s, metadata_lookup(xref, data, key)) {
        Outcome::NotFound => defined_as(spec_definition(s), key),
        found => defined_as(found, key),
    }
}

/// What `key` resolves to in a document with the map `xref` over the buffer
/// `data`.
#[verifier::opaque]
pub open spec fn materialized(xref: Map<u64, Xref>, data: Seq<u8>, key: Key) -> Result<
    Object,
    Error,
> {
    object_at(xref, data, key, |s: Seq<u8>| read_definition(xref, data, key, s))
}

/// An object in the cache, with the generation under which it was found.
#[derive(Debug)]
pub struct Cached {
    pub generation: u64,
    pub object: PdfObject,
}

/// The model of a document.
pub struct Document {
    pub version: VersionModel,
    pub xref: Map<u64, Xref>,
    pub data: Seq<u8>,
    pub cache: Map<u64, (u64, Object)>,
    pub warnings: Seq<Key>,
}

impl Document {
    /// Whether the cache holds nothing but what its keys resolve to.
    #[verifier::opaque]
    pub open spec fn consistent(self) -> bool {
        forall|n: u64| #[trigger]
            self.cache.contains_key(n) ==> self.xref.contains_key(n) && materialized(
                self.xref,
                self.data,
                Key { object: n, generation: self.cache[n].0 },
            ) == Ok::<Object, Error>(self.cache[n].1)
    }

    /// Whether the cache holds an object under `key`.
    pub open spec fn cached(self, key: Key) -> bool {
        self.cache.contains_key(key.object) && self.cache[key.object].0 == key.generation
    }

    /// Whether the object under `key` stands in an object stream.
    pub open spec fn compressed(self, key: Key) -> bool {
        self.xref.contains_key(key.object) && self.xref[key.object].type_ is Compressed
    }

    /// One resolution of `key`: the document after it, and what came of it.
    /// An object in the cache is returned from there. Any other is found
    /// through the map, and goes into the cache where the map has its number.
    /// A key of an object in an object stream resolves to null and is noted
    /// among the warnings.
    pub open spec fn resolve(self, key: Key) -> (Document, Result<Object, Error>) {
        if self.cached(key) {
            (self, Ok(self.cache[key.object].1))
        } else {
            match materialized(self.xref, self.data, key) {
                Err(e) => (self, Err(e)),
                Ok(object) => {
                    if self.xref.contains_key(key.object) {
                        (
                            Document {
                                cache: self.cache.insert(key.object, (key.generation, object)),
                                warnings: if self.compressed(key) {
                                    self.warnings.push(key)
                                } else {
                                    self.warnings
                                },
                                ..self
                            },
                            Ok(object),
                        )
                    } else {
                        (self, Ok(object))
                    }
                },
            }
        }
    }
}

/// A resolution keeps the cache consistent, keeps the buffer, the map and
/// the version, and gives what the key resolves to, whatever the cache
/// holds.
pub proof fn lemma_resolve(d: Document, key: Key)
    requires
        d.consistent(),
    ensures
        d.resolve(key).0.consistent(),
        d.resolve(key).0.xref == d.xref,
        d.resolve(key).0.data == d.data,
        d.resolve(key).0.version == d.version,
        d.resolve(key).1 == materialized(d.xref, d.data, key),
{
    reveal(Document::consistent);
    let after = d.resolve(key).0;
    if !d.cached(key) {
        if let Ok(object) = materialized(d.xref, d.data, key) {
            if d.xref.contains_key(key.object) {
                assert forall|n: u64| #[trigger] after.cache.contains_key(n) implies after.xref.contains_key(
                    n,
                ) && materialized(
                    after.xref,
                    after.data,
                    Key { object: n, generation: after.cache[n].0 },
                ) == Ok::<Object, Error>(after.cache[n].1) by {
                    if n != key.object {
                        assert(d.cache.contains_key(n));
                    }
                }
            }
        }
    } else {
        assert(d.cache.contains_key(key.object));
    }
}

/// Resolution is idempotent: a key that was resolved resolves to the same
/// again, and the second resolution changes nothing.
pub proof fn lemma_resolve_idempotent(d: Document, key: Key)
    requires
        d.consistent(),
    ensures
        d.resolve(key).0.resolve(key).1 == d.resolve(key).1,
        d.resolve(key).0.resolve(key).0 == d.resolve(key).0,
{
    reveal(Document::consistent);
    lemma_resolve(d, key);
    lemma_resolve(d.resolve(key).0, key);
    let once = d.resolve(key).0;
    if once.cached(key) {
    } else {
        if let Ok(object) = materialized(once.xref, once.data, key) {
            if once.xref.contains_key(key.object) {
                assert(once.cache.insert(key.object, (key.generation, object)) =~= once.cache) by {
                    assert(d.cached(key) || !d.xref.contains_key(key.object) || materialized(
                        d.xref,
                        d.data,
                        key,
                    ) is Err);
                }
            }
        }
    }
}

/// A key whose number the cross-reference map lacks resolves to null, and
/// its resolution changes nothing.
pub proof fn lemma_resolve_missing(d: Document, key: Key)
    requires
        d.consistent(),
        !d.xref.contains_key(key.object),
    ensures
        d.resolve(key).1 == Ok::<Object, Error>(Object::Null),
        d.resolve(key).0 == d,
{
    reveal(Document::consistent);
    reveal(materialized);
    if d.cached(key) {
        assert(d.cache.contains_key(key.object));
    }
}

/// Resolves the keys in the dictionary of the stream under `current`, from
/// the buffer and the map.
pub struct Source<'a> {
    pub xref: &'a HashMap<u64, Xref>,
    pub data: &'a [u8],
    pub current: Key,
}

/// The place in `data` that the map gives for `key`, where its entry is in
/// use and the place is within the buffer.
fn place<'a>(xref: &HashMap<u64, Xref>, data: &'a [u8], key: &Key) -> (r: Option<&'a [u8]>)
    ensures
        match r {
            Some(s) => xref@.contains_key(key.object) && xref@[key.object].type_ is InUse
                && xref@[key.object].offset <= data@.len() && s@ == data@.skip(
                xref@[key.object].offset as int,
            ),
            None => !xref@.contains_key(key.object) || !(xref@[key.object].type_ is InUse)
                || xref@[key.object].offset > data@.len(),
        },
{
    let entry: Xref = match xref.get(&key.object) {
        Some(x) => *x,
        None => {
            return None;
        },
    };
    match entry.type_ {
        XrefType::InUse => {},
        _ => {
            return None;
        },
    }
    if entry.offset > data.len() as u64 {
        return None;
    }
    Some(tail(data, entry.offset as usize))
}

/// The object of a definition that was looked for under `key`.
fn defined(found: Res<Definition>, key: &Key) -> (r: Result<PdfObject, Error>)
    ensures
        forall|expected: Outcome<(Key, Object)>| #[trigger]
            found.parsed(expected) ==> match defined_as(expected, *key) {
                Ok(o) => r is Ok && r->Ok_0@ == o,
                Err(e) => r is Err && r->Err_0 == e,
            },
{
    match found {
        Res::Found(f) => {
            if f.data.key.object == key.object && f.data.key.generation == key.generation {
                Ok(f.data.object)
            } else {
                Err(Error::XrefMismatch)
            }
        },
        Res::NotFound => Ok(PdfObject::Null),
        Res::Error(e) => Err(e),
    }
}

/// Finds the object under `key` where only an object that is no stream can
/// stand for it.
pub fn plain_object(xref: &HashMap<u64, Xref>, data: &[u8], key: &Key) -> (r: Result<
    PdfObject,
    Error,
>)
    ensures
        match plain_object_at(xref@, data@, *key) {
            Ok(o) => r is Ok && r->Ok_0@ == o,
            Err(e) => r is Err && r->Err_0 == e,
        },
{
    match place(xref, data, key) {
        None => Ok(PdfObject::Null),
        Some(s) => {
            let found = definition(s);
            assert(found.parsed(spec_definition(s@)));
            defined(found, key)
        },
    }
}

impl<'a> Resolver for Source<'a> {
    open spec fn lookup(&self, key: Key) -> Result<Object, Error> {
        metadata_lookup(self.xref@, self.data@, self.current)(key)
    }

    fn resolve(&self, key: &Key) -> (r: Result<PdfObject, Error>) {
        if key.object == self.current.object && key.generation == self.current.generation {
            return Err(Error::CycleInMetadata);
        }
        plain_object(self.xref, self.data, key)
    }
}

/// Finds the object under `key` through the map: reads its definition, as a
/// stream or as any other object, at the place that the map gives.
pub fn materialize(xref: &HashMap<u64, Xref>, data: &[u8], key: &Key) -> (r: Result<
    PdfObject,
    Error,
>)
    ensures
        match materialized(xref@, data@, *key) {
            Ok(o) => r is Ok && r->Ok_0@ == o,
            Err(e) => r is Err && r->Err_0 == e,
        },
{
    proof {
        reveal(materialized);
    }
    let s = match place(xref, data, key) {
        None => {
            return Ok(PdfObject::Null);
        },
        Some(s) => s,
    };
    let source = Source { xref, data, current: *key };
    let ghost lookup = metadata_lookup(xref@, data@, *key);
    assert((|k: Key| source.lookup(k)) =~= lookup);
    let as_stream = stream_definition(s, &source);
    assert(as_stream.parsed(spec_stream_definition(s@, lookup)));
    match as_stream {
        Res::NotFound => {
            let found = definition(s);
            assert(found.parsed(spec_definition(s@)));
            defined(found, key)
        },
        other => defined(other, key),
    }
}

/// What was passed over in a resolution: the key that was asked for, and
/// why nothing could be found for it.
#[derive(Debug, PartialEq, Eq)]
pub struct Warning {
    pub key: Key,
    pub kind: Error,
}

/// The keys of the warnings `warnings`.
pub open spec fn warning_keys(warnings: Seq<Warning>) -> Seq<Key> {
    Seq::new(warnings.len(), |i: int| warnings[i].key)
}

/// A document: the version that it declares, its cross-reference map, its
/// buffer, the objects that were resolved so far, and the warnings of their
/// resolution.
#[derive(Debug)]
pub struct Pdf {
    version: Version,
    xref: HashMap<u64, Xref>,
    data: Vec<u8>,
    objects: HashMap<u64, Cached>,
    warnings: Vec<Warning>,
}

/// The model of a cache.
pub open spec fn cache_model(objects: Map<u64, Cached>) -> Map<u64, (u64, Object)> {
    Map::new(
        |n: u64| objects.contains_key(n),
        |n: u64| (objects[n].generation, objects[n].object@),
    )
}

impl View for Pdf {
    type V = Document;

    closed spec fn view(&self) -> Document {
        Document {
            version: self.version@,
            xref: self.xref@,
            data: self.data@,
            cache: cache_model(self.objects@),
            warnings: warning_keys(self.warnings@),
        }
    }
}

impl Pdf {
    /// Whether every warning of the document is of an object in an object
    /// stream.
    pub closed spec fn warned_of_object_streams(&self) -> bool {
        forall|i: int|
            0 <= i < self.warnings@.len() ==> (#[trigger] self.warnings@[i]).kind
                == Error::UnsupportedObjectStream
    }

    /// Whether the document is one that loading gives and resolution keeps:
    /// its cache holds nothing but what its keys resolve to, and its warnings
    /// are of objects in object streams.
    pub open spec fn well_formed(&self) -> bool {
        self@.consistent() && self.warned_of_object_streams()
    }

    /// The version that the document declares.
    pub fn version(&self) -> (r: &Version)
        ensures
            r@ == self@.version,
    {
        &self.version
    }

    /// The cross-reference map of the document.
    pub fn xref(&self) -> (r: &HashMap<u64, Xref>)
        ensures
            r@ == self@.xref,
    {
        &self.xref
    }

    /// The warnings of the resolutions so far: one for each object in an
    /// object stream that was looked for, noted when its key was first
    /// resolved, with that key and the kind `UnsupportedObjectStream`. A
    /// later resolution of the same key adds none: it is answered from the
    /// cache.
    pub fn warnings(&self) -> (r: &Vec<Warning>)
        requires
            self.well_formed(),
        ensures
            warning_keys(r@) == self@.warnings,
            forall|i: int|
                0 <= i < r@.len() ==> (#[trigger] r@[i]).kind == Error::UnsupportedObjectStream,
    {
        &self.warnings
    }

    /// Resolves `key`: gives the object from the cache, or finds it through
    /// the cross-reference map and keeps it in the cache. A key that the map
    /// lacks, or whose entry is free, resolves to null; so does one where no
    /// definition stands at its place. Fails with `XrefMismatch` where the
    /// definition at its place has another key.
    pub fn resolve(&mut self, key: &Key) -> (r: Result<PdfObject, Error>)
        requires
            old(self).well_formed(),
        ensures
            final(self).well_formed(),
            final(self)@ == old(self)@.resolve(*key).0,
            match old(self)@.resolve(*key).1 {
                Ok(o) => r is Ok && r->Ok_0@ == o,
                Err(e) => r is Err && r->Err_0 == e,
            },
    {
        proof {
            lemma_resolve(self@, *key);
        }
        let ghost before = self@;
        match self.objects.get(&key.object) {
            Some(cached) => {
                if cached.generation == key.generation {
                    return Ok(cached.object.duplicate());
                }
            },
            None => {},
        }
        let object = match materialize(&self.xref, self.data.as_slice(), key) {
            Ok(o) => o,
            Err(e) => {
                return Err(e);
            },
        };
        let entry: Option<Xref> = match self.xref.get(&key.object) {
            Some(x) => Some(*x),
            None => None,
        };
        match entry {
            None => {},
            Some(x) => {
                match x.type_ {
                    XrefType::Compressed => {
                        let ghost noted = warning_keys(self.warnings@);
                        self.warnings.push(
                            Warning { key: *key, kind: Error::UnsupportedObjectStream },
                        );
                        assert(warning_keys(self.warnings@) =~= noted.push(*key));
                    },
                    _ => {},
                }
                let kept = Cached { generation: key.generation, object: object.duplicate() };
                self.objects.insert(key.object, kept);
                proof {
                    assert(cache_model(self.objects@) =~= before.cache.insert(
                        key.object,
                        (key.generation, object@),
                    ));
                }
            },
        }
        Ok(object)
    }
}

/// The last `startxref` that starts at `end` or before it, within the last
/// hundred bytes of `s`: the offset that it gives, and what remains after it.
pub open spec fn spec_find_startxref(s: Seq<u8>, end: int) -> Option<(u64, Seq<u8>)>
    decreases end + 1,
{
    if end < 0 || s.len() - end > 100 {
        None
    } else {
        match spec_startxref(s.skip(end)) {
            Outcome::Found(offset, rest) => Some((offset, rest)),
            _ => spec_find_startxref(s, end - 1),
        }
    }
}

/// The offset of the cross-reference section, as the end of `s` gives it:
/// the last `startxref` within the last hundred bytes, with its offset, a
/// line end, and the end-of-file marker, with which the buffer ends.
/// `MalformedTrailer` where the end of `s` is not that.
pub open spec fn spec_file_end(s: Seq<u8>) -> Result<u64, Error> {
    match spec_find_startxref(s, s.len() - 1) {
        None => Err(Error::MalformedTrailer),
        Some((offset, rest)) => match spec_eol(rest) {
            Outcome::Found(_, r1) => match spec_eof(r1) {
                Outcome::Found(_, r2) => if r2.len() == 0 {
                    Ok(offset)
                } else {
                    Err(Error::MalformedTrailer)
                },
                _ => Err(Error::MalformedTrailer),
            },
            _ => Err(Error::MalformedTrailer),
        },
    }
}

/// The cross-reference map of the section that starts `s`: that of a table,
/// which the trailer and the `startxref` of the file must follow, or else
/// that of a cross-reference stream. `MalformedTrailer` where the trailer or
/// `startxref` is missing after a table, `MalformedXref` where `s` starts
/// neither a table nor a stream that can be read.
pub open spec fn spec_xref_section(s: Seq<u8>) -> Result<Map<u64, Xref>, Error> {
    match spec_xref_table(s) {
        Outcome::Found(table, r1) => match spec_trailer(spec_consume_whitespace(r1)) {
            Outcome::Found(_, r2) => match spec_startxref(spec_consume_whitespace(r2)) {
                Outcome::Found(_, _) => Ok(table),
                _ => Err(Error::MalformedTrailer),
            },
            _ => Err(Error::MalformedTrailer),
        },
        Outcome::Error(_) => Err(Error::MalformedXref),
        Outcome::NotFound => match spec_xref_stream(s) {
            Outcome::Found(table, _) => Ok(table),
            _ => Err(Error::MalformedXref),
        },
    }
}

/// The document that the buffer `s` holds: the end of the file gives the
/// offset of the cross-reference section, the section gives the map, and the
/// header gives the version. No object is resolved yet. `NotAPdf` where the
/// buffer does not start with a version header.
pub open spec fn spec_parse_pdf(s: Seq<u8>) -> Result<Document, Error> {
    match spec_file_end(s) {
        Err(e) => Err(e),
        Ok(offset) => {
            if offset > s.len() {
                Err(Error::MalformedXref)
            } else {
                match spec_xref_section(s.skip(offset as int)) {
                    Err(e) => Err(e),
                    Ok(xref) => match spec_version(s) {
                        Outcome::Found(version, _) => Ok(
                            Document {
                                version,
                                xref,
                                data: s,
                                cache: Map::empty(),
                                warnings: Seq::empty(),
                            },
                        ),
                        _ => Err(Error::NotAPdf),
                    },
                }
            }
        },
    }
}

/// Finds the last `startxref` within the last hundred bytes.
fn find_startxref<'a>(data: &'a [u8]) -> (r: Option<Found<'a, u64>>)
    ensures
        match spec_find_startxref(data@, data@.len() - 1) {
            Some((offset, rest)) => r matches Some(f) && f.data == offset && f.remaining@ == rest,
            None => r is None,
        },
{
    if data.len() == 0 {
        return None;
    }
    let mut end: usize = data.len() - 1;
    loop
        invariant
            end < data@.len(),
            spec_find_startxref(data@, data@.len() - 1) == spec_find_startxref(data@, end as int),
        decreases end,
    {
        if data.len() - end > 100 {
            return None;
        }
        match startxref(tail(data, end)) {
            Res::Found(f) => {
                return Some(f);
            },
            _ => {},
        }
        if end == 0 {
            return None;
        }
        end = end - 1;
    }
}

/// Reads the end of the file and gives the offset of the cross-reference
/// section.
pub fn file_end(data: &[u8]) -> (r: Result<u64, Error>)
    ensures
        r == spec_file_end(data@),
{
    let found = match find_startxref(data) {
        Some(f) => f,
        None => {
            return Err(Error::MalformedTrailer);
        },
    };
    let after_line = match eol(found.remaining) {
        Res::Found(f) => f.remaining,
        _ => {
            return Err(Error::MalformedTrailer);
        },
    };
    let after_marker = match eof(after_line) {
        Res::Found(f) => f.remaining,
        _ => {
            return Err(Error::MalformedTrailer);
        },
    };
    if after_marker.len() != 0 {
        return Err(Error::MalformedTrailer);
    }
    Ok(found.data)
}

/// Reads the cross-reference section at the start of `data`.
pub fn xref_section(data: &[u8]) -> (r: Result<HashMap<u64, Xref>, Error>)
    ensures
        match spec_xref_section(data@) {
            Ok(table) => r is Ok && r->Ok_0@ == table,
            Err(e) => r is Err && r->Err_0 == e,
        },
{
    match xref_table(data) {
        Res::Found(table) => {
            let after_trailer = match trailer(consume_whitespace(table.remaining)) {
                Res::Found(f) => f.remaining,
                _ => {
                    return Err(Error::MalformedTrailer);
                },
            };
            match startxref(consume_whitespace(after_trailer)) {
                Res::Found(_) => Ok(table.data),
                _ => Err(Error::MalformedTrailer),
            }
        },
        Res::Error(_) => Err(Error::MalformedXref),
        Res::NotFound => match xref_stream(data) {
            Res::Found(table) => Ok(table.data),
            _ => Err(Error::MalformedXref),
        },
    }
}

/// Loads the document that `data` holds. No object is resolved yet.
pub fn parse_pdf(data: &[u8]) -> (r: Result<Pdf, Error>)
    ensures
        match spec_parse_pdf(data@) {
            Ok(document) => r is Ok && r->Ok_0@ == document && r->Ok_0.well_formed(),
            Err(e) => r is Err && r->Err_0 == e,
        },
{
    let offset: u64 = match file_end(data) {
        Ok(n) => n,
        Err(e) => {
            return Err(e);
        },
    };
    if offset > data.len() as u64 {
        return Err(Error::MalformedXref);
    }
    let xref = match xref_section(tail(data, offset as usize)) {
        Ok(table) => table,
        Err(e) => {
            return Err(e);
        },
    };
    let declared = match version(data) {
        Res::Found(f) => f.data,
        _ => {
            return Err(Error::NotAPdf);
        },
    };
    let objects: HashMap<u64, Cached> = HashMap::new();
    proof {
        reveal(Document::consistent);
        assert(cache_model(objects@) =~= Map::<u64, (u64, Object)>::empty());
    }
    let warnings: Vec<Warning> = Vec::new();
    proof {
        assert(warning_keys(warnings@) =~= Seq::<Key>::empty());
    }
    Ok(Pdf { version: declared, xref, data: copy_bytes(data), objects, warnings })
}

/// Recognizes a document in `data`, which it takes whole: nothing remains
/// after a document that was found. Fails where `parse_pdf` fails.
pub fn pdf<'a>(data: &'a [u8]) -> (r: Res<'a, Pdf>)
    ensures
        match spec_parse_pdf(data@) {
            Ok(document) => r matches Res::Found(f) && f.data@ == document && f.data.well_formed()
                && f.remaining@.len() == 0,
            Err(e) => r matches Res::Error(f) && f == e,
        },
{
    match parse_pdf(data) {
        Ok(document) => Res::found(document, tail(data, data.len())),
        Err(e) => Res::Error(e),
    }
}

/// The object under `key` in a document with the map `xref` over the buffer
/// `data`; null where its resolution fails.
pub open spec fn value_at(xref: Map<u64, Xref>, data: Seq<u8>, key: Key) -> Object {
    match materialized(xref, data, key) {
        Ok(o) => o,
        Err(_) => Object::Null,
    }
}

/// The object that `o` leads to through at most `fuel` references, one
/// after the other; null where more of them follow.
pub open spec fn follow_from(xref: Map<u64, Xref>, data: Seq<u8>, o: Object, fuel: nat) -> Object
    decreases fuel,
{
    match o {
        Object::Reference(key) => if fuel == 0 {
            Object::Null
        } else {
            follow_from(xref, data, value_at(xref, data, key), (fuel - 1) as nat)
        },
        other => other,
    }
}

/// The dictionary that `o` is or leads to through references, of which no
/// more follow one another than the map has entries and one.
pub open spec fn dictionary_from(xref: Map<u64, Xref>, data: Seq<u8>, o: Object) -> Option<
    Map<Seq<u8>, Object>,
> {
    match follow_from(xref, data, o, xref.len() + 1) {
        Object::Dictionary(d) => Some(d),
        _ => None,
    }
}

/// The dictionaries that the keys `keys` lead to, in their order; none
/// where one of them leads to no dictionary.
pub open spec fn dictionaries_from(xref: Map<u64, Xref>, data: Seq<u8>, keys: Seq<Key>) -> Option<
    Seq<Map<Seq<u8>, Object>>,
>
    decreases keys.len(),
{
    if keys.len() == 0 {
        Some(Seq::empty())
    } else {
        match (
            dictionaries_from(xref, data, keys.drop_last()),
            dictionary_from(xref, data, value_at(xref, data, keys.last())),
        ) {
            (Some(before), Some(d)) => Some(before.push(d)),
            _ => None,
        }
    }
}

/// Where the first keys lead to no dictionaries, all of them lead to none.
pub proof fn lemma_dictionaries_prefix(xref: Map<u64, Xref>, data: Seq<u8>, keys: Seq<Key>, n: int)
    requires
        0 <= n <= keys.len(),
        dictionaries_from(xref, data, keys.take(n)) is None,
    ensures
        dictionaries_from(xref, data, keys) is None,
    decreases keys.len() - n,
{
    if n < keys.len() {
        assert(keys.take(n + 1).drop_last() =~= keys.take(n));
        lemma_dictionaries_prefix(xref, data, keys, n + 1);
    } else {
        assert(keys.take(n) =~= keys);
    }
}

impl Document {
    /// The object under `key`; null where its resolution fails.
    pub open spec fn value(self, key: Key) -> Object {
        value_at(self.xref, self.data, key)
    }

    /// The object itself, or the object under the key of a reference.
    pub open spec fn deref(self, o: Object) -> Object {
        match o {
            Object::Reference(key) => self.value(key),
            other => other,
        }
    }

    /// The object that `o` leads to through at most `fuel` references, one
    /// after the other; null where more of them follow.
    pub open spec fn follow(self, o: Object, fuel: nat) -> Object {
        follow_from(self.xref, self.data, o, fuel)
    }

    /// The object that `o` is or leads to through references, of which no
    /// more follow one another than the map has entries and one.
    pub open spec fn reached(self, o: Object) -> Object {
        self.follow(o, self.xref.len() + 1)
    }

    /// The dictionary that `o` is or leads to through references.
    pub open spec fn dictionary_of(self, o: Object) -> Option<Map<Seq<u8>, Object>> {
        dictionary_from(self.xref, self.data, o)
    }

    /// The dictionary that `d` holds under `key`, or leads to from there
    /// through references.
    pub open spec fn entry_dictionary(self, d: Map<Seq<u8>, Object>, key: Seq<u8>) -> Option<
        Map<Seq<u8>, Object>,
    > {
        if d.contains_key(key) {
            self.dictionary_of(d[key])
        } else {
            None
        }
    }

    /// The dictionaries that the references in the array under `key` lead
    /// to; none where `d` has no array under `key` or one of the references
    /// leads to no dictionary.
    pub open spec fn reference_dictionaries(self, d: Map<Seq<u8>, Object>, key: Seq<u8>) -> Option<
        Seq<Map<Seq<u8>, Object>>,
    > {
        if d.contains_key(key) {
            match d[key] {
                Object::Array(items) => dictionaries_from(
                    self.xref,
                    self.data,
                    filter_map(items, |o: Object| o.as_reference()),
                ),
                _ => None,
            }
        } else {
            None
        }
    }

    /// Whether the cross-reference map says that the object with the number
    /// `number` is in use: that it stands in the file.
    pub open spec fn in_use(self, number: u64) -> bool {
        self.xref.contains_key(number) && self.xref[number].type_ is InUse
    }

    /// Whether `all` lists the objects that are in use: each of them once,
    /// under its key, as what the key resolves to, in whatever order. An
    /// object whose entry is free, or that stands in an object stream, is
    /// not listed.
    pub open spec fn lists(self, all: Seq<Definition>) -> bool {
        &&& forall|i: int|
            0 <= i < all.len() ==> self.in_use((#[trigger] all[i]).key.object)
                && all[i].key.generation == self.xref[all[i].key.object].key.generation
                && all[i].object@ == self.value(all[i].key)
        &&& forall|i: int, j: int|
            0 <= i < j < all.len() ==> (#[trigger] all[i]).key.object != (
            #[trigger] all[j]).key.object
        &&& forall|number: u64| #[trigger]
            self.in_use(number) ==> exists|i: int|
                0 <= i < all.len() && (#[trigger] all[i]).key.object == number
    }

    /// Whether `after` is this document after some resolutions: the same
    /// buffer, map and version, and a consistent cache.
    pub open spec fn resolved_to(self, after: Document) -> bool {
        after.consistent() && after.xref == self.xref && after.data == self.data && after.version
            == self.version
    }
}

impl Pdf {
    /// The object under `key`; null where its resolution fails.
    pub fn get(&mut self, key: &Key) -> (r: PdfObject)
        requires
            old(self).well_formed(),
        ensures
            final(self).well_formed(),
            old(self)@.resolved_to(final(self)@),
            r@ == old(self)@.value(*key),
    {
        proof {
            lemma_resolve(self@, *key);
        }
        match self.resolve(key) {
            Ok(o) => o,
            Err(_) => PdfObject::Null,
        }
    }

    /// The object itself, or the object under the key of a reference. One
    /// reference is followed, and no more.
    pub fn deref(&mut self, object: &PdfObject) -> (r: PdfObject)
        requires
            old(self).well_formed(),
        ensures
            final(self).well_formed(),
            old(self)@.resolved_to(final(self)@),
            r@ == old(self)@.deref(object@),
    {
        match object {
            PdfObject::Reference(key) => self.get(key),
            other => other.duplicate(),
        }
    }

    /// The object that `object` leads to through references, as many as
    /// follow one another; null where they go round in a circle, which is
    /// where more of them follow than the cross-reference map has entries.
    pub fn follow(&mut self, object: &PdfObject) -> (r: PdfObject)
        requires
            old(self).well_formed(),
        ensures
            final(self).well_formed(),
            old(self)@.resolved_to(final(self)@),
            r@ == old(self)@.follow(object@, old(self)@.xref.len() + 1),
    {
        let ghost start = self@;
        let mut left: usize = self.xref.len();
        let mut more: bool = true;
        let mut current: PdfObject = object.duplicate();
        loop
            invariant
                self.well_formed(),
                start.resolved_to(self@),
                start == old(self)@,
                left <= start.xref.len(),
                start.follow(object@, start.xref.len() + 1) == start.follow(
                    current@,
                    if more {
                        (left + 1) as nat
                    } else {
                        0nat
                    },
                ),
            decreases
                    (if more {
                        left + 1
                    } else {
                        0int
                    }),
        {
            let key: Key = match &current {
                PdfObject::Reference(key) => *key,
                _ => {
                    return current;
                },
            };
            if !more {
                return PdfObject::Null;
            }
            current = self.get(&key);
            if left == 0 {
                more = false;
            } else {
                left = left - 1;
            }
        }
    }
}

impl Pdf {
    /// The numbers of the objects that the cross-reference map has entries
    /// for, each once, in no particular order.
    pub fn numbers(&self) -> (r: Vec<u64>)
        ensures
            r@.no_duplicates(),
            r@.to_set() == self@.xref.dom(),
    {
        let mut out: Vec<u64> = Vec::new();
        for number in iter: self.xref.keys()
            invariant
                out@ == iter.seq().take(iter.index() as int).unref(),
                iter.seq().unref().to_set() == self.xref@.dom(),
                iter.seq().no_duplicates(),
                iter.index() == iter.seq().len() ==> out@ == iter.seq().unref(),
        {
            out.push(*number);
            proof {
                assert(iter.seq().take(iter.seq().len() as int) =~= iter.seq());
            }
        }
        out
    }
}

impl Pdf {
    /// The items of the array that `object` is or leads to through
    /// references.
    pub fn array(&mut self, object: &PdfObject) -> (r: Option<Vec<PdfObject>>)
        requires
            old(self).well_formed(),
        ensures
            final(self).well_formed(),
            old(self)@.resolved_to(final(self)@),
            match old(self)@.reached(object@).as_array() {
                Some(items) => r is Some && objects_model(r->Some_0@) == items,
                None => r is None,
            },
    {
        match self.follow(object) {
            PdfObject::Array(items) => {
                proof {
                    lemma_array_model(items);
                }
                Some(items)
            },
            _ => None,
        }
    }

    /// The integer that `object` is or leads to through references.
    pub fn integer(&mut self, object: &PdfObject) -> (r: Option<i64>)
        requires
            old(self).well_formed(),
        ensures
            final(self).well_formed(),
            old(self)@.resolved_to(final(self)@),
            r == old(self)@.reached(object@).as_integer(),
    {
        self.follow(object).as_integer()
    }

    /// The number that `object` is or leads to through references: a real,
    /// or an integer taken as a real.
    pub fn float(&mut self, object: &PdfObject) -> (r: Option<Real>)
        requires
            old(self).well_formed(),
        ensures
            final(self).well_formed(),
            old(self)@.resolved_to(final(self)@),
            match old(self)@.reached(object@).as_float() {
                Some(x) => r is Some && r->Some_0@ == x,
                None => r is None,
            },
    {
        self.follow(object).as_float()
    }

    /// The boolean that `object` is or leads to through references.
    pub fn boolean(&mut self, object: &PdfObject) -> (r: Option<bool>)
        requires
            old(self).well_formed(),
        ensures
            final(self).well_formed(),
            old(self)@.resolved_to(final(self)@),
            r == old(self)@.reached(object@).as_boolean(),
    {
        self.follow(object).as_boolean()
    }

    /// The bytes of the name that `object` is or leads to through
    /// references.
    pub fn identifier(&mut self, object: &PdfObject) -> (r: Option<Vec<u8>>)
        requires
            old(self).well_formed(),
        ensures
            final(self).well_formed(),
            old(self)@.resolved_to(final(self)@),
            match old(self)@.reached(object@).as_identifier() {
                Some(name) => r is Some && r->Some_0@ == name,
                None => r is None,
            },
    {
        match self.follow(object) {
            PdfObject::Identifier(name) => Some(name),
            _ => None,
        }
    }

    /// The bytes of the string that `object` is or leads to through
    /// references.
    pub fn string(&mut self, object: &PdfObject) -> (r: Option<Vec<u8>>)
        requires
            old(self).well_formed(),
        ensures
            final(self).well_formed(),
            old(self)@.resolved_to(final(self)@),
            match old(self)@.reached(object@).as_string() {
                Some(bytes) => r is Some && r->Some_0@ == bytes,
                None => r is None,
            },
    {
        match self.follow(object) {
            PdfObject::String(bytes) => Some(bytes),
            _ => None,
        }
    }
}

impl PdfObject {
    /// The dictionary that the object is or leads to through references.
    pub fn as_dictionary(&self, pdf: &mut Pdf) -> (r: Option<PdfDictionary>)
        requires
            old(pdf).well_formed(),
        ensures
            final(pdf).well_formed(),
            old(pdf)@.resolved_to(final(pdf)@),
            match old(pdf)@.dictionary_of(self@) {
                Some(d) => r is Some && r->Some_0@ == d,
                None => r is None,
            },
    {
        match pdf.follow(self) {
            PdfObject::Dictionary(x) => Some(x),
            _ => None,
        }
    }
}

impl PdfDictionary {
    /// The dictionary under the name `key`, or the one that the object
    /// there leads to through references.
    pub fn dictionary(&self, key: &str, pdf: &mut Pdf) -> (r: Option<PdfDictionary>)
        requires
            old(pdf).well_formed(),
        ensures
            final(pdf).well_formed(),
            old(pdf)@.resolved_to(final(pdf)@),
            match old(pdf)@.entry_dictionary(self@, key.spec_bytes()) {
                Some(d) => r is Some && r->Some_0@ == d,
                None => r is None,
            },
    {
        match self.get(key) {
            Some(o) => o.as_dictionary(pdf),
            None => None,
        }
    }

    /// The dictionaries that the references in the array under the name
    /// `key` lead to; none where there is no array under `key`, or where one
    /// of its references leads to no dictionary.
    pub fn map_reference_array(&self, key: &str, pdf: &mut Pdf) -> (r: Option<Vec<PdfDictionary>>)
        requires
            old(pdf).well_formed(),
        ensures
            final(pdf).well_formed(),
            old(pdf)@.resolved_to(final(pdf)@),
            match old(pdf)@.reference_dictionaries(self@, key.spec_bytes()) {
                Some(all) => r is Some && Seq::new(r->Some_0@.len(), |i: int| r->Some_0@[i]@)
                    == all,
                None => r is None,
            },
    {
        let keys: Vec<Key> = match self.reference_array(key) {
            Some(keys) => keys,
            None => {
                return None;
            },
        };
        let ghost start = pdf@;
        let mut result: Vec<PdfDictionary> = Vec::new();
        let mut i: usize = 0;
        assert(keys@.take(0) =~= Seq::<Key>::empty());
        assert(Seq::new(result@.len(), |k: int| result@[k]@) =~= Seq::<
            Map<Seq<u8>, Object>,
        >::empty());
        while i < keys.len()
            invariant
                i <= keys@.len(),
                pdf.well_formed(),
                start == old(pdf)@,
                start.resolved_to(pdf@),
                start.reference_dictionaries(self@, key.spec_bytes()) == dictionaries_from(
                    start.xref,
                    start.data,
                    keys@,
                ),
                dictionaries_from(start.xref, start.data, keys@.take(i as int)) == Some(
                    Seq::new(result@.len(), |k: int| result@[k]@),
                ),
            decreases keys@.len() - i,
        {
            let ghost before = Seq::new(result@.len(), |k: int| result@[k]@);
            proof {
                assert(keys@.take(i + 1).drop_last() =~= keys@.take(i as int));
                assert(keys@.take(i + 1).last() == keys@[i as int]);
            }
            let object = pdf.get(&keys[i]);
            match object.as_dictionary(pdf) {
                Some(d) => {
                    result.push(d);
                    assert(Seq::new(result@.len(), |k: int| result@[k]@) =~= before.push(d@));
                },
                None => {
                    proof {
                        let first = keys@.take(i + 1);
                        assert(first.drop_last() =~= keys@.take(i as int));
                        assert(first.last() == keys@[i as int]);
                        assert(dictionary_from(
                            start.xref,
                            start.data,
                            value_at(start.xref, start.data, first.last()),
                        ) is None);
                        assert(dictionaries_from(start.xref, start.data, first) is None);
                        lemma_dictionaries_prefix(start.xref, start.data, keys@, i + 1);
                    }
                    return None;
                },
            }
            i = i + 1;
        }
        assert(keys@.take(i as int) =~= keys@);
        Some(result)
    }
}

impl Pdf {
    /// The objects that are in use, each under its key, in no particular
    /// order: every one of them is resolved, and stands as null where its
    /// resolution fails. An object whose entry in the cross-reference map is
    /// free, or that stands in an object stream, is left out.
    pub fn objects(&mut self) -> (r: Vec<Definition>)
        requires
            old(self).well_formed(),
        ensures
            final(self).well_formed(),
            old(self)@.resolved_to(final(self)@),
            old(self)@.lists(r@),
    {
        let numbers: Vec<u64> = self.numbers();
        let ghost start = self@;
        let ghost mut origin: Seq<int> = Seq::empty();
        let mut out: Vec<Definition> = Vec::new();
        let mut i: usize = 0;
        while i < numbers.len()
            invariant
                i <= numbers@.len(),
                self.well_formed(),
                start == old(self)@,
                start.resolved_to(self@),
                numbers@.no_duplicates(),
                numbers@.to_set() == start.xref.dom(),
                origin.len() == out@.len(),
                forall|k: int|
                    0 <= k < out@.len() ==> 0 <= #[trigger] origin[k] < i && numbers@[origin[k]]
                        == out@[k].key.object,
                forall|k: int|
                    0 <= k < out@.len() ==> start.in_use((#[trigger] out@[k]).key.object)
                        && out@[k].key.generation == start.xref[out@[k].key.object].key.generation
                        && out@[k].object@ == start.value(out@[k].key),
                forall|k: int, l: int|
                    0 <= k < l < out@.len() ==> (#[trigger] out@[k]).key.object != (
                    #[trigger] out@[l]).key.object,
                forall|n: int|
                    0 <= n < i && start.in_use(#[trigger] numbers@[n]) ==> exists|k: int|
                        0 <= k < out@.len() && (#[trigger] out@[k]).key.object == numbers@[n],
            decreases numbers@.len() - i,
        {
            let number: u64 = numbers[i];
            let ghost before = out@;
            proof {
                assert(numbers@.to_set().contains(numbers@[i as int]));
            }
            let listed: Option<Key> = match self.xref.get(&number) {
                Some(x) => match x.type_ {
                    XrefType::InUse => Some(Key::new(number, x.key.generation)),
                    _ => None,
                },
                None => None,
            };
            match listed {
                Some(key) => {
                    let object = self.get(&key);
                    out.push(Definition::new(key, object));
                    proof {
                        assert forall|k: int| 0 <= k < before.len() implies (
                        #[trigger] before[k]).key.object != numbers@[i as int] by {
                            assert(numbers@[origin[k]] == before[k].key.object);
                        }
                        origin = origin.push(i as int);
                        assert(forall|k: int| 0 <= k < before.len() ==> out@[k] == before[k]);
                        assert(out@[before.len() as int].key.object == numbers@[i as int]);
                        assert forall|n: int|
                            0 <= n < i + 1 && start.in_use(
                                #[trigger] numbers@[n],
                            ) implies exists|k: int|
                            0 <= k < out@.len() && (#[trigger] out@[k]).key.object
                                == numbers@[n] by {
                            if n < i {
                                let k = choose|k: int|
                                    0 <= k < before.len() && (#[trigger] before[k]).key.object
                                        == numbers@[n];
                                assert(out@[k].key.object == numbers@[n]);
                            } else {
                                assert(out@[before.len() as int].key.object == numbers@[n]);
                            }
                        }
                    }
                },
                None => {},
            }
            i = i + 1;
        }
        proof {
            assert forall|number: u64| #[trigger] start.in_use(number) implies exists|k: int|
                0 <= k < out@.len() && (#[trigger] out@[k]).key.object == number by {
                assert(numbers@.to_set().contains(number));
                let n = choose|n: int| 0 <= n < numbers@.len() && numbers@[n] == number;
                assert(start.in_use(numbers@[n]));
            }
        }
        out
    }
}

} // verus!
