//! Reading objects: what an object is, taken as one kind or another, and
//! the entries of a dictionary.

use vstd::prelude::*;
use vstd::string::StringSliceAdditionalSpecFns;
use crate::decimal::{Real, RealModel, digits_of};
use crate::object::{
    Key,
    PdfObject,
    PdfDictionary,
    Entry,
    Object,
    objects_model,
    entries_model,
    lemma_array_model,
};

verus! {

/// Whether two byte slices hold the same bytes.
pub fn bytes_eq(a: &[u8], b: &[u8]) -> (r: bool)
    ensures
        r == (a@ == b@),
{
    if a.len() != b.len() {
        return false;
    }
    let mut i: usize = 0;
    while i < a.len()
        invariant
            i <= a@.len(),
            a@.len() == b@.len(),
            forall|k: int| 0 <= k < i ==> a@[k] == b@[k],
        decreases a@.len() - i,
    {
        if a[i] != b[i] {
            return false;
        }
        i = i + 1;
    }
    assert(a@ =~= b@);
    true
}

/// What the map of the first `n` entries holds under `key`: the value of the
/// last of them with that key.
pub proof fn lemma_entries_lookup(entries: Seq<Entry>, n: nat, key: Seq<u8>, last: int)
    requires
        n <= entries.len(),
        -1 <= last < n,
        last >= 0 ==> entries[last].key@ == key,
        forall|j: int| last < j < n ==> (#[trigger] entries[j]).key@ != key,
    ensures
        last >= 0 ==> entries_model(entries, n).contains_key(key) && entries_model(entries, n)[key]
            == entries[last].value@,
        last < 0 ==> !entries_model(entries, n).contains_key(key),
    decreases n,
{
    if n > 0 {
        if last == n - 1 {
        } else {
            assert(entries[n - 1].key@ != key);
            lemma_entries_lookup(entries, (n - 1) as nat, key, last);
        }
    }
}

impl Object {
    /// The items of an array.
    pub open spec fn as_array(self) -> Option<Seq<Object>> {
        match self {
            Object::Array(items) => Some(items),
            _ => None,
        }
    }

    /// The value of a boolean.
    pub open spec fn as_boolean(self) -> Option<bool> {
        match self {
            Object::Boolean(b) => Some(b),
            _ => None,
        }
    }

    /// The key of a reference.
    pub open spec fn as_reference(self) -> Option<Key> {
        match self {
            Object::Reference(k) => Some(k),
            _ => None,
        }
    }

    /// The value of a number: that of a real, or that of an integer taken as
    /// a real.
    pub open spec fn as_float(self) -> Option<RealModel> {
        match self {
            Object::Float(x) => Some(x),
            Object::Integer(i) => Some(
                RealModel {
                    negative: i < 0,
                    digits: digits_of(vstd::math::abs(i as int) as nat),
                    scale: 0,
                },
            ),
            _ => None,
        }
    }

    /// The bytes of a name.
    pub open spec fn as_identifier(self) -> Option<Seq<u8>> {
        match self {
            Object::Identifier(name) => Some(name),
            _ => None,
        }
    }

    /// The value of an integer.
    pub open spec fn as_integer(self) -> Option<i64> {
        match self {
            Object::Integer(i) => Some(i),
            _ => None,
        }
    }

    /// The value of an integer that is above zero.
    pub open spec fn as_unsigned(self) -> Option<u64> {
        match self {
            Object::Integer(i) => if i <= 0 {
                None
            } else {
                Some(i as u64)
            },
            _ => None,
        }
    }

    /// The bytes of a string.
    pub open spec fn as_string(self) -> Option<Seq<u8>> {
        match self {
            Object::String(bytes) => Some(bytes),
            _ => None,
        }
    }
}

/// The values that `f` gives for the items of `items`, in their order, those
/// left out for which it gives none.
pub open spec fn filter_map<T>(items: Seq<Object>, f: spec_fn(Object) -> Option<T>) -> Seq<T>
    decreases items.len(),
{
    if items.len() == 0 {
        Seq::empty()
    } else {
        let before = filter_map(items.drop_last(), f);
        match f(items.last()) {
            Some(v) => before.push(v),
            None => before,
        }
    }
}

impl PdfObject {
    /// The items of an array.
    pub fn as_array(&self) -> (r: Option<&Vec<PdfObject>>)
        ensures
            match self@.as_array() {
                Some(items) => r is Some && objects_model(r->Some_0@) == items,
                None => r is None,
            },
    {
        match self {
            PdfObject::Array(x) => {
                proof {
                    lemma_array_model(*x);
                }
                Some(x)
            },
            _ => None,
        }
    }

    /// The integers above zero among the items of an array.
    pub fn as_unsigned_array(&self) -> (r: Option<Vec<u64>>)
        ensures
            match self@.as_array() {
                Some(items) => r is Some && r->Some_0@ == filter_map(
                    items,
                    |o: Object| o.as_unsigned(),
                ),
                None => r is None,
            },
    {
        let items = match self.as_array() {
            Some(items) => items,
            None => {
                return None;
            },
        };
        let ghost f = |o: Object| o.as_unsigned();
        let mut out: Vec<u64> = Vec::new();
        let mut i: usize = 0;
        assert(objects_model(items@).take(0) =~= Seq::<Object>::empty());
        while i < items.len()
            invariant
                i <= items@.len(),
                f == (|o: Object| o.as_unsigned()),
                out@ == filter_map(objects_model(items@).take(i as int), f),
            decreases items@.len() - i,
        {
            proof {
                let all = objects_model(items@);
                assert(all.take(i + 1).drop_last() =~= all.take(i as int));
                assert(all.take(i + 1).last() == items@[i as int]@);
            }
            match items[i].as_unsigned() {
                Some(v) => {
                    out.push(v);
                },
                None => {},
            }
            i = i + 1;
        }
        assert(objects_model(items@).take(i as int) =~= objects_model(items@));
        Some(out)
    }

    /// The integers among the items of an array.
    pub fn as_integer_array(&self) -> (r: Option<Vec<i64>>)
        ensures
            match self@.as_array() {
                Some(items) => r is Some && r->Some_0@ == filter_map(
                    items,
                    |o: Object| o.as_integer(),
                ),
                None => r is None,
            },
    {
        let items = match self.as_array() {
            Some(items) => items,
            None => {
                return None;
            },
        };
        let ghost f = |o: Object| o.as_integer();
        let mut out: Vec<i64> = Vec::new();
        let mut i: usize = 0;
        assert(objects_model(items@).take(0) =~= Seq::<Object>::empty());
        while i < items.len()
            invariant
                i <= items@.len(),
                f == (|o: Object| o.as_integer()),
                out@ == filter_map(objects_model(items@).take(i as int), f),
            decreases items@.len() - i,
        {
            proof {
                let all = objects_model(items@);
                assert(all.take(i + 1).drop_last() =~= all.take(i as int));
                assert(all.take(i + 1).last() == items@[i as int]@);
            }
            match items[i].as_integer() {
                Some(v) => {
                    out.push(v);
                },
                None => {},
            }
            i = i + 1;
        }
        assert(objects_model(items@).take(i as int) =~= objects_model(items@));
        Some(out)
    }

    /// The numbers among the items of an array.
    pub fn as_float_array(&self) -> (r: Option<Vec<Real>>)
        ensures
            match self@.as_array() {
                Some(items) => r is Some && Seq::new(
                    r->Some_0@.len(),
                    |i: int| r->Some_0@[i]@,
                ) == filter_map(items, |o: Object| o.as_float()),
                None => r is None,
            },
    {
        let items = match self.as_array() {
            Some(items) => items,
            None => {
                return None;
            },
        };
        let ghost f = |o: Object| o.as_float();
        let mut out: Vec<Real> = Vec::new();
        let mut i: usize = 0;
        assert(objects_model(items@).take(0) =~= Seq::<Object>::empty());
        assert(Seq::new(out@.len(), |k: int| out@[k]@) =~= Seq::<RealModel>::empty());
        while i < items.len()
            invariant
                i <= items@.len(),
                f == (|o: Object| o.as_float()),
                Seq::new(out@.len(), |k: int| out@[k]@) == filter_map(
                    objects_model(items@).take(i as int),
                    f,
                ),
            decreases items@.len() - i,
        {
            let ghost before = Seq::new(out@.len(), |k: int| out@[k]@);
            proof {
                let all = objects_model(items@);
                assert(all.take(i + 1).drop_last() =~= all.take(i as int));
                assert(all.take(i + 1).last() == items@[i as int]@);
            }
            match items[i].as_float() {
                Some(v) => {
                    out.push(v);
                    assert(Seq::new(out@.len(), |k: int| out@[k]@) =~= before.push(v@));
                },
                None => {},
            }
            i = i + 1;
        }
        assert(objects_model(items@).take(i as int) =~= objects_model(items@));
        Some(out)
    }

    /// The value of a boolean.
    pub fn as_boolean(&self) -> (r: Option<bool>)
        ensures
            r == self@.as_boolean(),
    {
        match self {
            PdfObject::Boolean(x) => Some(*x),
            _ => None,
        }
    }

    /// The key of a reference.
    pub fn as_reference(&self) -> (r: Option<&Key>)
        ensures
            match self@.as_reference() {
                Some(k) => r == Some(&k),
                None => r is None,
            },
    {
        match self {
            PdfObject::Reference(x) => Some(x),
            _ => None,
        }
    }

    /// The value of a number: that of a real, or that of an integer taken as
    /// a real.
    pub fn as_float(&self) -> (r: Option<Real>)
        ensures
            match self@.as_float() {
                Some(x) => r is Some && r->Some_0@ == x,
                None => r is None,
            },
    {
        match self {
            PdfObject::Float(x) => Some(x.clone()),
            PdfObject::Integer(x) => Some(Real::from_integer(*x)),
            _ => None,
        }
    }

    /// The bytes of a name.
    pub fn as_identifier(&self) -> (r: Option<&Vec<u8>>)
        ensures
            match self@.as_identifier() {
                Some(name) => r is Some && r->Some_0@ == name,
                None => r is None,
            },
    {
        match self {
            PdfObject::Identifier(x) => Some(x),
            _ => None,
        }
    }

    /// The value of an integer.
    pub fn as_integer(&self) -> (r: Option<i64>)
        ensures
            r == self@.as_integer(),
    {
        match self {
            PdfObject::Integer(x) => Some(*x),
            _ => None,
        }
    }

    /// The value of an integer that is above zero.
    pub fn as_unsigned(&self) -> (r: Option<u64>)
        ensures
            r == self@.as_unsigned(),
    {
        match self.as_integer() {
            None => None,
            Some(x) => {
                if x <= 0 {
                    None
                } else {
                    Some(x as u64)
                }
            },
        }
    }

    /// The bytes of a string.
    pub fn as_string(&self) -> (r: Option<&Vec<u8>>)
        ensures
            match self@.as_string() {
                Some(bytes) => r is Some && r->Some_0@ == bytes,
                None => r is None,
            },
    {
        match self {
            PdfObject::String(x) => Some(x),
            _ => None,
        }
    }
}

/// What `map` holds under `key`, taken by `f`.
pub open spec fn entry_as<T>(
    map: Map<Seq<u8>, Object>,
    key: Seq<u8>,
    f: spec_fn(Object) -> Option<T>,
) -> Option<T> {
    if map.contains_key(key) {
        f(map[key])
    } else {
        None
    }
}

impl PdfDictionary {
    /// The dictionary of the entries `data`, each put into it in turn.
    pub fn new(data: Vec<Entry>) -> (r: PdfDictionary)
        ensures
            r@ == entries_model(data@, data@.len()),
            r.data == data,
    {
        PdfDictionary { data }
    }

    /// The object under the name given by its bytes.
    pub fn lookup(&self, key: &[u8]) -> (r: Option<&PdfObject>)
        ensures
            match r {
                Some(o) => self@.contains_key(key@) && o@ == self@[key@],
                None => !self@.contains_key(key@),
            },
    {
        let mut i: usize = self.data.len();
        while i > 0
            invariant
                i <= self.data@.len(),
                forall|j: int| i <= j < self.data@.len() ==> (#[trigger] self.data@[j]).key@ != key@,
            decreases i,
        {
            i = i - 1;
            if bytes_eq(self.data[i].key.as_slice(), key) {
                proof {
                    lemma_entries_lookup(self.data@, self.data@.len(), key@, i as int);
                }
                return Some(&self.data[i].value);
            }
        }
        proof {
            lemma_entries_lookup(self.data@, self.data@.len(), key@, -1);
        }
        None
    }

    /// The object under the name `key`.
    pub fn get(&self, key: &str) -> (r: Option<&PdfObject>)
        ensures
            match r {
                Some(o) => self@.contains_key(key.spec_bytes()) && o@ == self@[key.spec_bytes()],
                None => !self@.contains_key(key.spec_bytes()),
            },
    {
        self.lookup(key.as_bytes())
    }

    /// The integer under the name `key`.
    pub fn integer(&self, key: &str) -> (r: Option<i64>)
        ensures
            r == entry_as(self@, key.spec_bytes(), |o: Object| o.as_integer()),
    {
        match self.get(key) {
            Some(o) => o.as_integer(),
            None => None,
        }
    }

    /// The integer above zero under the name `key`.
    pub fn unsigned(&self, key: &str) -> (r: Option<u64>)
        ensures
            r == entry_as(self@, key.spec_bytes(), |o: Object| o.as_unsigned()),
    {
        match self.get(key) {
            Some(o) => o.as_unsigned(),
            None => None,
        }
    }

    /// The bytes of the name under the name `key`.
    pub fn identifier(&self, key: &str) -> (r: Option<&Vec<u8>>)
        ensures
            match entry_as(self@, key.spec_bytes(), |o: Object| o.as_identifier()) {
                Some(name) => r is Some && r->Some_0@ == name,
                None => r is None,
            },
    {
        match self.get(key) {
            Some(o) => o.as_identifier(),
            None => None,
        }
    }

    /// The number under the name `key`.
    pub fn float(&self, key: &str) -> (r: Option<Real>)
        ensures
            match entry_as(self@, key.spec_bytes(), |o: Object| o.as_float()) {
                Some(x) => r is Some && r->Some_0@ == x,
                None => r is None,
            },
    {
        match self.get(key) {
            Some(o) => o.as_float(),
            None => None,
        }
    }

    /// The boolean under the name `key`.
    pub fn boolean(&self, key: &str) -> (r: Option<bool>)
        ensures
            r == entry_as(self@, key.spec_bytes(), |o: Object| o.as_boolean()),
    {
        match self.get(key) {
            Some(o) => o.as_boolean(),
            None => None,
        }
    }

    /// The items of the array under the name `key`.
    pub fn array(&self, key: &str) -> (r: Option<&Vec<PdfObject>>)
        ensures
            match entry_as(self@, key.spec_bytes(), |o: Object| o.as_array()) {
                Some(items) => r is Some && objects_model(r->Some_0@) == items,
                None => r is None,
            },
    {
        match self.get(key) {
            Some(o) => o.as_array(),
            None => None,
        }
    }

    /// The keys of the references among the items of the array under the
    /// name `key`.
    pub fn reference_array(&self, key: &str) -> (r: Option<Vec<Key>>)
        ensures
            match entry_as(self@, key.spec_bytes(), |o: Object| o.as_array()) {
                Some(items) => r is Some && r->Some_0@ == filter_map(
                    items,
                    |o: Object| o.as_reference(),
                ),
                None => r is None,
            },
    {
        let items = match self.array(key) {
            Some(items) => items,
            None => {
                return None;
            },
        };
        let ghost f = |o: Object| o.as_reference();
        let mut out: Vec<Key> = Vec::new();
        let mut i: usize = 0;
        assert(objects_model(items@).take(0) =~= Seq::<Object>::empty());
        while i < items.len()
            invariant
                i <= items@.len(),
                f == (|o: Object| o.as_reference()),
                out@ == filter_map(objects_model(items@).take(i as int), f),
            decreases items@.len() - i,
        {
            proof {
                let all = objects_model(items@);
                assert(all.take(i + 1).drop_last() =~= all.take(i as int));
                assert(all.take(i + 1).last() == items@[i as int]@);
            }
            match items[i].as_reference() {
                Some(v) => {
                    out.push(*v);
                },
                None => {},
            }
            i = i + 1;
        }
        assert(objects_model(items@).take(i as int) =~= objects_model(items@));
        Some(out)
    }

    /// The names among the items of the array under the name `key`.
    pub fn identifier_array(&self, key: &str) -> (r: Option<Vec<Vec<u8>>>)
        ensures
            match entry_as(self@, key.spec_bytes(), |o: Object| o.as_array()) {
                Some(items) => r is Some && Seq::new(
                    r->Some_0@.len(),
                    |i: int| r->Some_0@[i]@,
                ) == filter_map(items, |o: Object| o.as_identifier()),
                None => r is None,
            },
    {
        let items = match self.array(key) {
            Some(items) => items,
            None => {
                return None;
            },
        };
        let ghost f = |o: Object| o.as_identifier();
        let mut out: Vec<Vec<u8>> = Vec::new();
        let mut i: usize = 0;
        assert(objects_model(items@).take(0) =~= Seq::<Object>::empty());
        assert(Seq::new(out@.len(), |k: int| out@[k]@) =~= Seq::<Seq<u8>>::empty());
        while i < items.len()
            invariant
                i <= items@.len(),
                f == (|o: Object| o.as_identifier()),
                Seq::new(out@.len(), |k: int| out@[k]@) == filter_map(
                    objects_model(items@).take(i as int),
                    f,
                ),
            decreases items@.len() - i,
        {
            let ghost before = Seq::new(out@.len(), |k: int| out@[k]@);
            proof {
                let all = objects_model(items@);
                assert(all.take(i + 1).drop_last() =~= all.take(i as int));
                assert(all.take(i + 1).last() == items@[i as int]@);
            }
            match items[i].as_identifier() {
                Some(v) => {
                    let copy = crate::header::copy_bytes(v.as_slice());
                    out.push(copy);
                    assert(Seq::new(out@.len(), |k: int| out@[k]@) =~= before.push(v@));
                },
                None => {},
            }
            i = i + 1;
        }
        assert(objects_model(items@).take(i as int) =~= objects_model(items@));
        Some(out)
    }

    /// The integers among the items of the array under the name `key`.
    pub fn integer_array(&self, key: &str) -> (r: Option<Vec<i64>>)
        ensures
            match entry_as(self@, key.spec_bytes(), |o: Object| o.as_array()) {
                Some(items) => r is Some && r->Some_0@ == filter_map(
                    items,
                    |o: Object| o.as_integer(),
                ),
                None => r is None,
            },
    {
        match self.get(key) {
            Some(o) => o.as_integer_array(),
            None => None,
        }
    }
}

} // verus!
