//! When two objects are the same.
//!
//! Two objects are the same where their models are: arrays item by item,
//! dictionaries name by name, in whatever order their entries were written
//! and whatever entries a later one replaced. This is what `==` means on
//! objects, dictionaries and streams.

use vstd::prelude::*;
use vstd::std_specs::cmp::PartialEqSpecImpl;
use crate::access::{bytes_eq, lemma_entries_lookup};
use crate::object::{
    PdfObject,
    PdfDictionary,
    Stream,
    Entry,
    Filter,
    Object,
    objects_model,
    entries_model,
    filter_names,
    lemma_array_model,
};
use crate::stream::filter_name;

verus! {

/// Whether the entry at `i` counts: no later entry has its name.
pub open spec fn counts(entries: Seq<Entry>, i: int) -> bool {
    forall|j: int| i < j < entries.len() ==> (#[trigger] entries[j]).key@ != entries[i].key@
}

/// Under each name of its map, one entry counts, and the map holds its
/// value.
pub proof fn lemma_counting_entry(entries: Seq<Entry>, n: nat, key: Seq<u8>) -> (at: int)
    requires
        n <= entries.len(),
        entries_model(entries, n).contains_key(key),
    ensures
        0 <= at < n,
        entries[at].key@ == key,
        forall|j: int| at < j < n ==> (#[trigger] entries[j]).key@ != key,
        entries_model(entries, n)[key] == entries[at].value@,
    decreases n,
{
    if entries[n - 1].key@ == key {
        (n - 1) as int
    } else {
        lemma_counting_entry(entries, (n - 1) as nat, key)
    }
}

/// Whether two lists of filters name the same filters, one by one.
pub fn same_filters(a: &Vec<Filter>, b: &Vec<Filter>) -> (r: bool)
    ensures
        r == (filter_names(a@) == filter_names(b@)),
{
    if a.len() != b.len() {
        assert(filter_names(a@).len() != filter_names(b@).len());
        return false;
    }
    let mut i: usize = 0;
    while i < a.len()
        invariant
            i <= a@.len(),
            a@.len() == b@.len(),
            forall|k: int| 0 <= k < i ==> (#[trigger] a@[k])@ == b@[k]@,
        decreases a@.len() - i,
    {
        let x = filter_name(&a[i]);
        let y = filter_name(&b[i]);
        if !bytes_eq(x.as_slice(), y.as_slice()) {
            assert(filter_names(a@)[i as int] != filter_names(b@)[i as int]);
            return false;
        }
        i = i + 1;
    }
    assert(filter_names(a@) =~= filter_names(b@));
    true
}

/// Whether two lists of objects hold the same objects, one by one.
pub fn same_objects(a: &Vec<PdfObject>, b: &Vec<PdfObject>) -> (r: bool)
    ensures
        r == (objects_model(a@) == objects_model(b@)),
    decreases a, 0nat,
{
    if a.len() != b.len() {
        assert(objects_model(a@).len() != objects_model(b@).len());
        return false;
    }
    let mut i: usize = 0;
    while i < a.len()
        invariant
            i <= a@.len(),
            a@.len() == b@.len(),
            forall|k: int| 0 <= k < i ==> (#[trigger] a@[k])@ == b@[k]@,
        decreases a@.len() - i,
    {
        if !a[i].same(&b[i]) {
            assert(objects_model(a@)[i as int] != objects_model(b@)[i as int]);
            return false;
        }
        i = i + 1;
    }
    assert(objects_model(a@) =~= objects_model(b@));
    true
}

impl PdfObject {
    /// Whether the two objects are the same.
    pub fn same(&self, other: &PdfObject) -> (r: bool)
        ensures
            r == (self@ == other@),
        decreases self, 0nat,
    {
        match self {
            PdfObject::Array(a) => match other {
                PdfObject::Array(b) => {
                    proof {
                        lemma_array_model(*a);
                        lemma_array_model(*b);
                    }
                    same_objects(a, b)
                },
                _ => false,
            },
            PdfObject::Boolean(a) => match other {
                PdfObject::Boolean(b) => *a == *b,
                _ => false,
            },
            PdfObject::Reference(a) => match other {
                PdfObject::Reference(b) => a.object == b.object && a.generation == b.generation,
                _ => false,
            },
            PdfObject::Dictionary(a) => match other {
                PdfObject::Dictionary(b) => a.same(b),
                _ => false,
            },
            PdfObject::Float(a) => match other {
                PdfObject::Float(b) => a.same(b),
                _ => false,
            },
            PdfObject::Identifier(a) => match other {
                PdfObject::Identifier(b) => bytes_eq(a.as_slice(), b.as_slice()),
                _ => false,
            },
            PdfObject::Integer(a) => match other {
                PdfObject::Integer(b) => *a == *b,
                _ => false,
            },
            PdfObject::Stream(a) => match other {
                PdfObject::Stream(b) => a.same(b),
                _ => false,
            },
            PdfObject::Null => match other {
                PdfObject::Null => true,
                _ => false,
            },
            PdfObject::String(a) => match other {
                PdfObject::String(b) => bytes_eq(a.as_slice(), b.as_slice()),
                _ => false,
            },
        }
    }
}

impl PdfDictionary {
    /// Whether the entry at `i` counts: no later entry has its name.
    fn counts(&self, i: usize) -> (r: bool)
        requires
            i < self.data@.len(),
        ensures
            r == counts(self.data@, i as int),
    {
        let n: usize = self.data.len();
        let mut j: usize = i + 1;
        while j < n
            invariant
                n == self.data@.len(),
                i < j <= n,
                forall|k: int| i < k < j ==> (#[trigger] self.data@[k]).key@ != self.data@[i as int].key@,
            decreases self.data@.len() - j,
        {
            if bytes_eq(self.data[j].key.as_slice(), self.data[i].key.as_slice()) {
                return false;
            }
            j = j + 1;
        }
        true
    }

    /// Whether `other` has, under each name of this dictionary, the same
    /// object as this one.
    pub fn within(&self, other: &PdfDictionary) -> (r: bool)
        ensures
            r == (forall|k: Seq<u8>| #[trigger]
                self@.contains_key(k) ==> other@.contains_key(k) && other@[k] == self@[k]),
        decreases self, 0nat,
    {
        let mut i: usize = 0;
        while i < self.data.len()
            invariant
                i <= self.data@.len(),
                forall|j: int|
                    0 <= j < i && #[trigger] counts(self.data@, j) ==> other@.contains_key(
                        self.data@[j].key@,
                    ) && other@[self.data@[j].key@] == self.data@[j].value@,
            decreases self.data@.len() - i,
        {
            if self.counts(i) {
                proof {
                    lemma_entries_lookup(
                        self.data@,
                        self.data@.len(),
                        self.data@[i as int].key@,
                        i as int,
                    );
                }
                match other.lookup(self.data[i].key.as_slice()) {
                    None => {
                        assert(self@.contains_key(self.data@[i as int].key@));
                        return false;
                    },
                    Some(o) => {
                        if !self.data[i].value.same(o) {
                            assert(self@.contains_key(self.data@[i as int].key@));
                            return false;
                        }
                    },
                }
            }
            i = i + 1;
        }
        proof {
            assert forall|k: Seq<u8>| #[trigger] self@.contains_key(k) implies other@.contains_key(
                k,
            ) && other@[k] == self@[k] by {
                let at = lemma_counting_entry(self.data@, self.data@.len(), k);
                assert(counts(self.data@, at));
            }
        }
        true
    }

    /// Whether `other` has each name of this dictionary.
    fn names_within(&self, other: &PdfDictionary) -> (r: bool)
        ensures
            r == (forall|k: Seq<u8>| #[trigger] self@.contains_key(k) ==> other@.contains_key(k)),
    {
        let mut i: usize = 0;
        while i < self.data.len()
            invariant
                i <= self.data@.len(),
                forall|j: int|
                    0 <= j < i ==> other@.contains_key((#[trigger] self.data@[j]).key@),
            decreases self.data@.len() - i,
        {
            if other.lookup(self.data[i].key.as_slice()).is_none() {
                proof {
                    lemma_names(self.data@, self.data@.len(), i as int);
                    assert(self@.contains_key(self.data@[i as int].key@));
                    assert(!other@.contains_key(self.data@[i as int].key@));
                }
                return false;
            }
            i = i + 1;
        }
        proof {
            assert forall|k: Seq<u8>| #[trigger] self@.contains_key(k) implies other@.contains_key(
                k,
            ) by {
                let at = lemma_counting_entry(self.data@, self.data@.len(), k);
            }
        }
        true
    }

    /// Whether the two dictionaries are the same: each has the names of the
    /// other, and under each name the same object.
    pub fn same(&self, other: &PdfDictionary) -> (r: bool)
        ensures
            r == (self@ == other@),
        decreases self, 1nat,
    {
        let alike = self.within(other) && other.names_within(self);
        proof {
            if alike {
                assert(self@ =~= other@);
            }
        }
        alike
    }
}

/// The name of each entry is a name of the map.
pub proof fn lemma_names(entries: Seq<Entry>, n: nat, i: int)
    requires
        n <= entries.len(),
        0 <= i < n,
    ensures
        entries_model(entries, n).contains_key(entries[i].key@),
    decreases n,
{
    if i < n - 1 {
        lemma_names(entries, (n - 1) as nat, i);
    }
}

impl Stream {
    /// Whether the two streams are the same: the same data, in the same
    /// state, under the same dictionary, with the same length and filters.
    pub fn same(&self, other: &Stream) -> (r: bool)
        ensures
            r == (self@ == other@),
        decreases self, 0nat,
    {
        let alike = self.decoded == other.decoded && self.metadata.length == other.metadata.length
            && bytes_eq(self.data.as_slice(), other.data.as_slice()) && same_filters(
            &self.metadata.filters,
            &other.metadata.filters,
        ) && self.metadata.dictionary.same(&other.metadata.dictionary);
        alike
    }
}

impl PartialEq for PdfObject {
    fn eq(&self, other: &PdfObject) -> (r: bool) {
        self.same(other)
    }
}

impl PartialEqSpecImpl for PdfObject {
    open spec fn obeys_eq_spec() -> bool {
        true
    }

    open spec fn eq_spec(&self, other: &PdfObject) -> bool {
        self@ == other@
    }
}

impl PartialEq for PdfDictionary {
    fn eq(&self, other: &PdfDictionary) -> (r: bool) {
        self.same(other)
    }
}

impl PartialEqSpecImpl for PdfDictionary {
    open spec fn obeys_eq_spec() -> bool {
        true
    }

    open spec fn eq_spec(&self, other: &PdfDictionary) -> bool {
        self@ == other@
    }
}

impl PartialEq for Stream {
    fn eq(&self, other: &Stream) -> (r: bool) {
        self.same(other)
    }
}

impl PartialEqSpecImpl for Stream {
    open spec fn obeys_eq_spec() -> bool {
        true
    }

    open spec fn eq_spec(&self, other: &Stream) -> bool {
        self@ == other@
    }
}

} // verus!
