//! The objects of a document, and their model.
//!
//! An object holds vectors and, in them, objects again; its model holds
//! sequences and maps. Contracts speak of the model, which is the view of an
//! object.

use vstd::prelude::*;
use vstd::string::StringSliceAdditionalSpecFns;
use crate::decimal::{Real, RealModel};
use crate::header::copy_bytes;

verus! {

/// The identifier of an indirect object: its number and its generation.
#[derive(Debug, Clone, Copy, Hash, PartialEq, Eq, Structural)]
pub struct Key {
    pub object: u64,
    pub generation: u64,
}

impl View for Key {
    type V = Key;

    open spec fn view(&self) -> Key {
        *self
    }
}

impl Key {
    /// The key of the object with the given number and generation.
    pub fn new(object: u64, generation: u64) -> (r: Key)
        ensures
            r == (Key { object, generation }),
    {
        Key { object, generation }
    }
}

/// A filter that a stream names. `Other` holds a name that is none of the
/// standard ones.
#[derive(Debug, Clone, PartialEq, Eq)]
pub enum Filter {
    ASCIIHexDecode,
    ASCII85Decode,
    LZWDecode,
    FlateDecode,
    RunLengthDecode,
    CCITTFaxDecode,
    JBIG2Decode,
    DCTDecode,
    JPXDecode,
    Crypt,
    Other(Vec<u8>),
}

impl View for Filter {
    type V = Seq<u8>;

    /// The name of the filter.
    open spec fn view(&self) -> Seq<u8> {
        match self {
            Filter::ASCIIHexDecode => "ASCIIHexDecode".spec_bytes(),
            Filter::ASCII85Decode => "ASCII85Decode".spec_bytes(),
            Filter::LZWDecode => "LZWDecode".spec_bytes(),
            Filter::FlateDecode => "FlateDecode".spec_bytes(),
            Filter::RunLengthDecode => "RunLengthDecode".spec_bytes(),
            Filter::CCITTFaxDecode => "CCITTFaxDecode".spec_bytes(),
            Filter::JBIG2Decode => "JBIG2Decode".spec_bytes(),
            Filter::DCTDecode => "DCTDecode".spec_bytes(),
            Filter::JPXDecode => "JPXDecode".spec_bytes(),
            Filter::Crypt => "Crypt".spec_bytes(),
            Filter::Other(name) => name@,
        }
    }
}

/// The names of the filters `filters`.
pub open spec fn filter_names(filters: Seq<Filter>) -> Seq<Seq<u8>> {
    Seq::new(filters.len(), |i: int| filters[i]@)
}

/// What a stream dictionary says of the stream: the length of its data and
/// the filters to apply, with the dictionary itself.
#[derive(Debug, PartialEq)]
pub struct StreamMetadata {
    pub length: u64,
    pub filters: Vec<Filter>,
    pub dictionary: PdfDictionary,
}

/// A stream: its data and what its dictionary says of them. The data are as
/// they stand in the file until the filters are applied, and decoded after.
#[derive(Debug)]
pub struct Stream {
    pub data: Vec<u8>,
    pub metadata: StreamMetadata,
    pub decoded: bool,
}

/// One entry of a dictionary.
#[derive(Debug, PartialEq)]
pub struct Entry {
    pub key: Vec<u8>,
    pub value: PdfObject,
}

/// A dictionary: from names to objects. Of two entries with one name the
/// later counts.
#[derive(Debug)]
pub struct PdfDictionary {
    pub data: Vec<Entry>,
}

/// An object.
#[derive(Debug)]
pub enum PdfObject {
    Array(Vec<PdfObject>),
    Boolean(bool),
    Reference(Key),
    Dictionary(PdfDictionary),
    Float(Real),
    Identifier(Vec<u8>),
    Integer(i64),
    Stream(Stream),
    Null,
    String(Vec<u8>),
}

/// The model of a stream.
pub struct StreamModel {
    pub data: Seq<u8>,
    pub length: nat,
    pub filters: Seq<Seq<u8>>,
    pub dictionary: Map<Seq<u8>, Object>,
    pub decoded: bool,
}

/// The model of an object.
pub enum Object {
    Array(Seq<Object>),
    Boolean(bool),
    Reference(Key),
    Dictionary(Map<Seq<u8>, Object>),
    Float(RealModel),
    Identifier(Seq<u8>),
    Integer(i64),
    Stream(StreamModel),
    Null,
    String(Seq<u8>),
}

/// The map that the first `n` of `entries` make, each put into it in turn.
pub open spec fn entries_model(entries: Seq<Entry>, n: nat) -> Map<Seq<u8>, Object>
    decreases entries, n,
{
    if n == 0 || n > entries.len() {
        Map::empty()
    } else {
        entries_model(entries, (n - 1) as nat).insert(
            entries[n - 1].key@,
            entries[n - 1].value.model(),
        )
    }
}

impl PdfObject {
    /// The model of the object.
    pub open spec fn model(self) -> Object
        decreases self,
    {
        match self {
            PdfObject::Array(items) => Object::Array(
                Seq::new(
                    items@.len(),
                    |i: int|
                        if 0 <= i < items@.len() {
                            items@[i].model()
                        } else {
                            Object::Null
                        },
                ),
            ),
            PdfObject::Boolean(b) => Object::Boolean(b),
            PdfObject::Reference(k) => Object::Reference(k),
            PdfObject::Dictionary(d) => Object::Dictionary(entries_model(d.data@, d.data@.len())),
            PdfObject::Float(x) => Object::Float(x@),
            PdfObject::Identifier(name) => Object::Identifier(name@),
            PdfObject::Integer(i) => Object::Integer(i),
            PdfObject::Stream(s) => Object::Stream(
                StreamModel {
                    data: s.data@,
                    length: s.metadata.length as nat,
                    filters: filter_names(s.metadata.filters@),
                    dictionary: entries_model(
                        s.metadata.dictionary.data@,
                        s.metadata.dictionary.data@.len(),
                    ),
                    decoded: s.decoded,
                },
            ),
            PdfObject::Null => Object::Null,
            PdfObject::String(bytes) => Object::String(bytes@),
        }
    }
}

impl View for PdfObject {
    type V = Object;

    open spec fn view(&self) -> Object {
        self.model()
    }
}

impl View for PdfDictionary {
    type V = Map<Seq<u8>, Object>;

    open spec fn view(&self) -> Map<Seq<u8>, Object> {
        entries_model(self.data@, self.data@.len())
    }
}

impl View for Stream {
    type V = StreamModel;

    open spec fn view(&self) -> StreamModel {
        StreamModel {
            data: self.data@,
            length: self.metadata.length as nat,
            filters: filter_names(self.metadata.filters@),
            dictionary: self.metadata.dictionary@,
            decoded: self.decoded,
        }
    }
}

/// The models of the objects `items`.
pub open spec fn objects_model(items: Seq<PdfObject>) -> Seq<Object> {
    Seq::new(items.len(), |i: int| items[i]@)
}

/// The model of an array is the models of its items.
pub proof fn lemma_array_model(items: Vec<PdfObject>)
    ensures
        PdfObject::Array(items)@ == Object::Array(objects_model(items@)),
{
    assert(PdfObject::Array(items).model()->Array_0 =~= objects_model(items@));
}

/// Entries that agree, key by key and value by value, make the same map.
pub proof fn lemma_entries_model_agree(a: Seq<Entry>, b: Seq<Entry>, n: nat)
    requires
        n <= a.len(),
        n <= b.len(),
        forall|i: int| 0 <= i < n ==> (#[trigger] a[i]).key@ == b[i].key@ && a[i].value@ == b[i].value@,
    ensures
        entries_model(a, n) == entries_model(b, n),
    decreases n,
{
    if n > 0 {
        lemma_entries_model_agree(a, b, (n - 1) as nat);
        assert(a[n - 1].key@ == b[n - 1].key@);
    }
}

/// One more entry is one more insertion.
pub proof fn lemma_entries_model_push(entries: Seq<Entry>, entry: Entry)
    ensures
        entries_model(entries.push(entry), entries.len() + 1) == entries_model(
            entries,
            entries.len(),
        ).insert(entry.key@, entry.value@),
{
    let longer = entries.push(entry);
    lemma_entries_model_agree(longer, entries, entries.len());
}

impl Filter {
    /// A copy of the filter.
    pub fn duplicate(&self) -> (r: Filter)
        ensures
            r@ == self@,
    {
        match self {
            Filter::ASCIIHexDecode => Filter::ASCIIHexDecode,
            Filter::ASCII85Decode => Filter::ASCII85Decode,
            Filter::LZWDecode => Filter::LZWDecode,
            Filter::FlateDecode => Filter::FlateDecode,
            Filter::RunLengthDecode => Filter::RunLengthDecode,
            Filter::CCITTFaxDecode => Filter::CCITTFaxDecode,
            Filter::JBIG2Decode => Filter::JBIG2Decode,
            Filter::DCTDecode => Filter::DCTDecode,
            Filter::JPXDecode => Filter::JPXDecode,
            Filter::Crypt => Filter::Crypt,
            Filter::Other(name) => Filter::Other(copy_bytes(name.as_slice())),
        }
    }
}

/// Copies of the filters `filters`.
pub fn duplicate_filters(filters: &Vec<Filter>) -> (r: Vec<Filter>)
    ensures
        filter_names(r@) == filter_names(filters@),
{
    let mut out: Vec<Filter> = Vec::new();
    let mut i: usize = 0;
    while i < filters.len()
        invariant
            i <= filters@.len(),
            out@.len() == i,
            forall|k: int| 0 <= k < i ==> (#[trigger] out@[k])@ == filters@[k]@,
        decreases filters@.len() - i,
    {
        out.push(filters[i].duplicate());
        i = i + 1;
    }
    assert(filter_names(out@) =~= filter_names(filters@));
    out
}

impl PdfObject {
    /// A copy of the object, with copies of all that it holds.
    pub fn duplicate(&self) -> (r: PdfObject)
        ensures
            r@ == self@,
        decreases self,
    {
        match self {
            PdfObject::Array(items) => {
                let out = duplicate_objects(items);
                proof {
                    lemma_array_model(out);
                    lemma_array_model(*items);
                }
                PdfObject::Array(out)
            },
            PdfObject::Boolean(b) => PdfObject::Boolean(*b),
            PdfObject::Reference(k) => PdfObject::Reference(*k),
            PdfObject::Dictionary(d) => PdfObject::Dictionary(d.duplicate()),
            PdfObject::Float(x) => PdfObject::Float(x.clone()),
            PdfObject::Identifier(name) => PdfObject::Identifier(copy_bytes(name.as_slice())),
            PdfObject::Integer(i) => PdfObject::Integer(*i),
            PdfObject::Stream(s) => PdfObject::Stream(s.duplicate()),
            PdfObject::Null => PdfObject::Null,
            PdfObject::String(bytes) => PdfObject::String(copy_bytes(bytes.as_slice())),
        }
    }
}

/// Copies of the objects `items`.
pub fn duplicate_objects(items: &Vec<PdfObject>) -> (r: Vec<PdfObject>)
    ensures
        objects_model(r@) == objects_model(items@),
    decreases items,
{
    let mut out: Vec<PdfObject> = Vec::new();
    let mut i: usize = 0;
    while i < items.len()
        invariant
            i <= items@.len(),
            out@.len() == i,
            forall|k: int| 0 <= k < i ==> (#[trigger] out@[k])@ == items@[k]@,
        decreases items@.len() - i,
    {
        out.push(items[i].duplicate());
        i = i + 1;
    }
    assert(objects_model(out@) =~= objects_model(items@));
    out
}

impl PdfDictionary {
    /// A copy of the dictionary, with copies of all that it holds.
    pub fn duplicate(&self) -> (r: PdfDictionary)
        ensures
            r@ == self@,
        decreases self,
    {
        let mut out: Vec<Entry> = Vec::new();
        let mut i: usize = 0;
        while i < self.data.len()
            invariant
                i <= self.data@.len(),
                out@.len() == i,
                forall|k: int|
                    0 <= k < i ==> (#[trigger] out@[k]).key@ == self.data@[k].key@ && out@[k].value@
                        == self.data@[k].value@,
            decreases self.data@.len() - i,
        {
            let entry = &self.data[i];
            out.push(Entry { key: copy_bytes(entry.key.as_slice()), value: entry.value.duplicate() });
            i = i + 1;
        }
        proof {
            lemma_entries_model_agree(out@, self.data@, out@.len());
        }
        PdfDictionary { data: out }
    }
}

impl Stream {
    /// A copy of the stream, with copies of all that it holds.
    pub fn duplicate(&self) -> (r: Stream)
        ensures
            r@ == self@,
        decreases self,
    {
        Stream {
            data: copy_bytes(self.data.as_slice()),
            metadata: StreamMetadata {
                length: self.metadata.length,
                filters: duplicate_filters(&self.metadata.filters),
                dictionary: self.metadata.dictionary.duplicate(),
            },
            decoded: self.decoded,
        }
    }
}

impl Clone for PdfObject {
    fn clone(&self) -> (r: PdfObject)
        ensures
            r@ == self@,
    {
        self.duplicate()
    }
}

impl Clone for PdfDictionary {
    fn clone(&self) -> (r: PdfDictionary)
        ensures
            r@ == self@,
    {
        self.duplicate()
    }
}

impl Clone for Stream {
    fn clone(&self) -> (r: Stream)
        ensures
            r@ == self@,
    {
        self.duplicate()
    }
}

} // verus!
