//! The object grammar: references, arrays, dictionaries, the choice among
//! all kinds of object, and indirect object definitions.

use vstd::prelude::*;
use vstd::string::StringSliceAdditionalSpecFns;
use crate::error::Error;
use crate::lexer::{
    Res,
    Found,
    Outcome,
    tail,
    exact,
    spec_exact,
    boolean,
    spec_boolean,
    null,
    spec_null,
    consume_whitespace,
    spec_consume_whitespace,
    lemma_consume_whitespace,
};
use crate::number::{integer, spec_integer};
use crate::decimal::{float, spec_float};
use crate::strings::{string, spec_string, identifier, spec_identifier};
use crate::object::{
    Key,
    PdfObject,
    PdfDictionary,
    Entry,
    Object,
    objects_model,
    entries_model,
    lemma_array_model,
    lemma_entries_model_push,
};

verus! {

/// The head of a reference or of a definition at the start of `s`: the
/// object number, at least 1, white space, and the generation, at least 0.
pub open spec fn spec_reference_header(s: Seq<u8>) -> Outcome<Key> {
    match spec_integer(s) {
        Outcome::Found(object, r1) => match spec_integer(spec_consume_whitespace(r1)) {
            Outcome::Found(generation, r2) => {
                if object < 1 || generation < 0 {
                    Outcome::NotFound
                } else {
                    Outcome::Found(
                        Key { object: object as u64, generation: generation as u64 },
                        r2,
                    )
                }
            },
            Outcome::NotFound => Outcome::NotFound,
            Outcome::Error(e) => Outcome::Error(e),
        },
        Outcome::NotFound => Outcome::NotFound,
        Outcome::Error(e) => Outcome::Error(e),
    }
}

/// Recognizes an object number and a generation.
pub fn reference_header<'a>(data: &'a [u8]) -> (r: Res<'a, Key>)
    ensures
        r.parsed(spec_reference_header(data@)),
        r matches Res::Found(f) ==> f.remaining@.len() < data@.len(),
{
    let first = match integer(data) {
        Res::Found(f) => f,
        Res::NotFound => {
            return Res::NotFound;
        },
        Res::Error(e) => {
            return Res::Error(e);
        },
    };
    let second = match integer(consume_whitespace(first.remaining)) {
        Res::Found(f) => f,
        Res::NotFound => {
            return Res::NotFound;
        },
        Res::Error(e) => {
            return Res::Error(e);
        },
    };
    if first.data < 1 || second.data < 0 {
        return Res::NotFound;
    }
    Res::found(Key::new(first.data as u64, second.data as u64), second.remaining)
}

/// The bytes that remain after the byte `byte` at the start of `s`.
pub open spec fn spec_byte(s: Seq<u8>, byte: u8) -> Outcome<()> {
    if s.len() > 0 && s[0] == byte {
        Outcome::Found((), s.skip(1))
    } else {
        Outcome::NotFound
    }
}

/// A reference at the start of `s`: object number, generation and `R`.
pub open spec fn spec_reference(s: Seq<u8>) -> Outcome<Key> {
    match spec_reference_header(s) {
        Outcome::Found(key, r1) => match spec_byte(spec_consume_whitespace(r1), 'R' as u8) {
            Outcome::Found(_, r2) => Outcome::Found(key, r2),
            _ => Outcome::NotFound,
        },
        Outcome::NotFound => Outcome::NotFound,
        Outcome::Error(e) => Outcome::Error(e),
    }
}

/// Recognizes a reference to an indirect object: `N G R`.
pub fn reference<'a>(data: &'a [u8]) -> (r: Res<'a, Key>)
    ensures
        r.parsed(spec_reference(data@)),
        r matches Res::Found(f) ==> f.remaining@.len() < data@.len(),
{
    let header = match reference_header(data) {
        Res::Found(f) => f,
        Res::NotFound => {
            return Res::NotFound;
        },
        Res::Error(e) => {
            return Res::Error(e);
        },
    };
    let after: &[u8] = consume_whitespace(header.remaining);
    if after.len() == 0 || after[0] != 0x52 {
        return Res::NotFound;
    }
    Res::found(header.data, tail(after, 1))
}

/// An object at the start of `s`. The kinds are tried in this order, and the
/// first that is found counts: boolean, null, reference, integer, real,
/// string, name, array, dictionary. A kind that fails ends the choice.
pub open spec fn spec_object(s: Seq<u8>) -> Outcome<Object>
    decreases s.len(), 2nat,
{
    match spec_boolean(s) {
        Outcome::Found(v, rest) => Outcome::Found(Object::Boolean(v), rest),
        Outcome::Error(e) => Outcome::Error(e),
        Outcome::NotFound => match spec_null(s) {
            Outcome::Found(_, rest) => Outcome::Found(Object::Null, rest),
            Outcome::Error(e) => Outcome::Error(e),
            Outcome::NotFound => match spec_reference(s) {
                Outcome::Found(v, rest) => Outcome::Found(Object::Reference(v), rest),
                Outcome::Error(e) => Outcome::Error(e),
                Outcome::NotFound => match spec_integer(s) {
                    Outcome::Found(v, rest) => Outcome::Found(Object::Integer(v), rest),
                    Outcome::Error(e) => Outcome::Error(e),
                    Outcome::NotFound => match spec_float(s) {
                        Outcome::Found(v, rest) => Outcome::Found(Object::Float(v), rest),
                        Outcome::Error(e) => Outcome::Error(e),
                        Outcome::NotFound => match spec_string(s) {
                            Outcome::Found(v, rest) => Outcome::Found(Object::String(v), rest),
                            Outcome::Error(e) => Outcome::Error(e),
                            Outcome::NotFound => match spec_identifier(s) {
                                Outcome::Found(v, rest) => Outcome::Found(
                                    Object::Identifier(v),
                                    rest,
                                ),
                                Outcome::Error(e) => Outcome::Error(e),
                                Outcome::NotFound => match spec_array(s) {
                                    Outcome::Found(v, rest) => Outcome::Found(
                                        Object::Array(v),
                                        rest,
                                    ),
                                    Outcome::Error(e) => Outcome::Error(e),
                                    Outcome::NotFound => match spec_dictionary(s) {
                                        Outcome::Found(v, rest) => Outcome::Found(
                                            Object::Dictionary(v),
                                            rest,
                                        ),
                                        Outcome::Error(e) => Outcome::Error(e),
                                        Outcome::NotFound => Outcome::NotFound,
                                    },
                                },
                            },
                        },
                    },
                },
            },
        },
    }
}

/// An array at the start of `s`: `[`, objects with white space between them
/// at will, `]`.
pub open spec fn spec_array(s: Seq<u8>) -> Outcome<Seq<Object>>
    decreases s.len(), 1nat,
{
    if s.len() > 0 && s[0] == '[' as u8 {
        proof {
            lemma_consume_whitespace(s.skip(1));
        }
        spec_array_items(spec_consume_whitespace(s.skip(1)), Seq::empty())
    } else {
        Outcome::NotFound
    }
}

/// The items of an array from inside it on, after the items `acc`, up to the
/// `]` that ends it.
pub open spec fn spec_array_items(s: Seq<u8>, acc: Seq<Object>) -> Outcome<Seq<Object>>
    decreases s.len(), 3nat,
{
    match spec_object(s) {
        Outcome::Found(v, rest) => {
            if rest.len() < s.len() {
                proof {
                    lemma_consume_whitespace(rest);
                }
                spec_array_items(spec_consume_whitespace(rest), acc.push(v))
            } else {
                Outcome::NotFound
            }
        },
        Outcome::Error(e) => Outcome::Error(e),
        Outcome::NotFound => spec_byte(spec_consume_whitespace(s), ']' as u8).map(|u: ()| acc),
    }
}

/// A dictionary at the start of `s`: `<<`, pairs of a name and an object,
/// `>>`.
pub open spec fn spec_dictionary(s: Seq<u8>) -> Outcome<Map<Seq<u8>, Object>>
    decreases s.len(), 1nat,
{
    if s.len() > 1 && s[0] == '<' as u8 && s[1] == '<' as u8 {
        proof {
            lemma_consume_whitespace(s.skip(2));
        }
        spec_dictionary_entries(spec_consume_whitespace(s.skip(2)), Map::empty())
    } else {
        Outcome::NotFound
    }
}

/// The entries of a dictionary from inside it on, put into `acc` in turn, up
/// to the `>>` that ends it.
pub open spec fn spec_dictionary_entries(s: Seq<u8>, acc: Map<Seq<u8>, Object>) -> Outcome<
    Map<Seq<u8>, Object>,
>
    decreases s.len(), 3nat,
{
    match spec_identifier(s) {
        Outcome::Found(key, r1) => {
            if r1.len() < s.len() {
                proof {
                    lemma_consume_whitespace(r1);
                }
                match spec_object(spec_consume_whitespace(r1)) {
                    Outcome::Found(value, r2) => {
                        if r2.len() < s.len() {
                            proof {
                                lemma_consume_whitespace(r2);
                            }
                            spec_dictionary_entries(
                                spec_consume_whitespace(r2),
                                acc.insert(key, value),
                            )
                        } else {
                            Outcome::NotFound
                        }
                    },
                    Outcome::NotFound => Outcome::NotFound,
                    Outcome::Error(e) => Outcome::Error(e),
                }
            } else {
                Outcome::NotFound
            }
        },
        Outcome::Error(e) => Outcome::Error(e),
        Outcome::NotFound => {
            if s.len() > 1 && s[0] == '>' as u8 && s[1] == '>' as u8 {
                Outcome::Found(acc, s.skip(2))
            } else {
                Outcome::NotFound
            }
        },
    }
}

/// Whether `r` is the outcome `expected`, the objects found taken by their
/// models.
pub open spec fn parsed_objects(r: Res<Vec<PdfObject>>, expected: Outcome<Seq<Object>>) -> bool {
    match (r, expected) {
        (Res::Found(f), Outcome::Found(v, rest)) => objects_model(f.data@) == v && f.remaining@
            == rest,
        (Res::NotFound, Outcome::NotFound) => true,
        (Res::Error(e), Outcome::Error(f)) => e == f,
        _ => false,
    }
}

/// Recognizes an object of any kind but a stream.
pub fn object<'a>(data: &'a [u8]) -> (r: Res<'a, PdfObject>)
    ensures
        r.parsed(spec_object(data@)),
        r matches Res::Found(f) ==> f.remaining@.len() < data@.len(),
    decreases data@.len(), 2nat,
{
    match boolean(data) {
        Res::Found(r) => {
            return Res::found(PdfObject::Boolean(r.data), r.remaining);
        },
        Res::Error(e) => {
            return Res::Error(e);
        },
        Res::NotFound => {},
    }
    match null(data) {
        Res::Found(r) => {
            return Res::found(PdfObject::Null, r.remaining);
        },
        Res::Error(e) => {
            return Res::Error(e);
        },
        Res::NotFound => {},
    }
    match reference(data) {
        Res::Found(r) => {
            return Res::found(PdfObject::Reference(r.data), r.remaining);
        },
        Res::Error(e) => {
            return Res::Error(e);
        },
        Res::NotFound => {},
    }
    match integer(data) {
        Res::Found(r) => {
            return Res::found(PdfObject::Integer(r.data), r.remaining);
        },
        Res::Error(e) => {
            return Res::Error(e);
        },
        Res::NotFound => {},
    }
    match float(data) {
        Res::Found(r) => {
            return Res::found(PdfObject::Float(r.data), r.remaining);
        },
        Res::Error(e) => {
            return Res::Error(e);
        },
        Res::NotFound => {},
    }
    match string(data) {
        Res::Found(r) => {
            return Res::found(PdfObject::String(r.data), r.remaining);
        },
        Res::Error(e) => {
            return Res::Error(e);
        },
        Res::NotFound => {},
    }
    match identifier(data) {
        Res::Found(r) => {
            return Res::found(PdfObject::Identifier(r.data), r.remaining);
        },
        Res::Error(e) => {
            return Res::Error(e);
        },
        Res::NotFound => {},
    }
    match array(data) {
        Res::Found(r) => {
            proof {
                lemma_array_model(r.data);
            }
            return Res::found(PdfObject::Array(r.data), r.remaining);
        },
        Res::Error(e) => {
            return Res::Error(e);
        },
        Res::NotFound => {},
    }
    match dictionary(data) {
        Res::Found(r) => {
            return Res::found(PdfObject::Dictionary(r.data), r.remaining);
        },
        Res::Error(e) => {
            return Res::Error(e);
        },
        Res::NotFound => {},
    }
    Res::NotFound
}

/// Recognizes an array and gives its items.
pub fn array<'a>(data: &'a [u8]) -> (r: Res<'a, Vec<PdfObject>>)
    ensures
        parsed_objects(r, spec_array(data@)),
        r matches Res::Found(f) ==> f.remaining@.len() < data@.len(),
    decreases data@.len(), 1nat,
{
    if data.len() == 0 || data[0] != 0x5B {
        return Res::NotFound;
    }
    let mut cur: &[u8] = consume_whitespace(tail(data, 1));
    let mut result: Vec<PdfObject> = Vec::new();
    assert(objects_model(result@) =~= Seq::<Object>::empty());
    loop
        invariant
            cur@.len() < data@.len(),
            spec_array(data@) == spec_array_items(cur@, objects_model(result@)),
        decreases cur@.len(),
    {
        match object(cur) {
            Res::Found(o) => {
                let ghost before = objects_model(result@);
                result.push(o.data);
                assert(objects_model(result@) =~= before.push(o.data@));
                cur = consume_whitespace(o.remaining);
            },
            Res::Error(e) => {
                return Res::Error(e);
            },
            Res::NotFound => {
                let after: &[u8] = consume_whitespace(cur);
                if after.len() == 0 || after[0] != 0x5D {
                    return Res::NotFound;
                }
                return Res::found(result, tail(after, 1));
            },
        }
    }
}

/// Recognizes a dictionary and gives its entries.
pub fn dictionary<'a>(data: &'a [u8]) -> (r: Res<'a, PdfDictionary>)
    ensures
        r.parsed(spec_dictionary(data@)),
        r matches Res::Found(f) ==> f.remaining@.len() < data@.len(),
    decreases data@.len(), 1nat,
{
    if data.len() < 2 || data[0] != 0x3C || data[1] != 0x3C {
        return Res::NotFound;
    }
    let mut cur: &[u8] = consume_whitespace(tail(data, 2));
    let mut result: Vec<Entry> = Vec::new();
    loop
        invariant
            cur@.len() < data@.len(),
            spec_dictionary(data@) == spec_dictionary_entries(
                cur@,
                entries_model(result@, result@.len()),
            ),
        decreases cur@.len(),
    {
        let key = match identifier(cur) {
            Res::Found(f) => f,
            Res::Error(e) => {
                return Res::Error(e);
            },
            Res::NotFound => {
                if cur.len() < 2 || cur[0] != 0x3E || cur[1] != 0x3E {
                    return Res::NotFound;
                }
                return Res::found(PdfDictionary { data: result }, tail(cur, 2));
            },
        };
        let value = match object(consume_whitespace(key.remaining)) {
            Res::Found(f) => f,
            Res::Error(e) => {
                return Res::Error(e);
            },
            Res::NotFound => {
                return Res::NotFound;
            },
        };
        let entry = Entry { key: key.data, value: value.data };
        proof {
            lemma_entries_model_push(result@, entry);
        }
        result.push(entry);
        cur = consume_whitespace(value.remaining);
    }
}

/// An indirect object: its key and the object.
#[derive(Debug, PartialEq)]
pub struct Definition {
    pub key: Key,
    pub object: PdfObject,
}

impl Definition {
    /// The definition of `object` under `key`.
    pub fn new(key: Key, object: PdfObject) -> (r: Definition)
        ensures
            r.key == key,
            r.object == object,
    {
        Definition { key, object }
    }
}

impl View for Definition {
    type V = (Key, Object);

    open spec fn view(&self) -> (Key, Object) {
        (self.key, self.object@)
    }
}

/// The bytes of the keyword `obj`.
pub open spec fn keyword_obj() -> Seq<u8> {
    seq!['o' as u8, 'b' as u8, 'j' as u8]
}

/// The bytes of the keyword `endobj`.
pub open spec fn keyword_endobj() -> Seq<u8> {
    seq!['e' as u8, 'n' as u8, 'd' as u8, 'o' as u8, 'b' as u8, 'j' as u8]
}

/// The start of a definition at the start of `s`: object number, generation
/// and `obj`, with white space between them and after them.
pub open spec fn spec_definition_head(s: Seq<u8>) -> Outcome<Key> {
    match spec_reference_header(s) {
        Outcome::Found(key, r1) => match spec_exact(spec_consume_whitespace(r1), keyword_obj()) {
            Outcome::Found(_, r2) => Outcome::Found(key, spec_consume_whitespace(r2)),
            Outcome::NotFound => Outcome::NotFound,
            Outcome::Error(e) => Outcome::Error(e),
        },
        Outcome::NotFound => Outcome::NotFound,
        Outcome::Error(e) => Outcome::Error(e),
    }
}

/// The end of a definition at the start of `s`: white space and `endobj`.
pub open spec fn spec_definition_tail(s: Seq<u8>) -> Outcome<()> {
    spec_exact(spec_consume_whitespace(s), keyword_endobj())
}

/// The definition of an indirect object at the start of `s`: `N G obj`, an
/// object, `endobj`.
pub open spec fn spec_definition(s: Seq<u8>) -> Outcome<(Key, Object)> {
    match spec_definition_head(s) {
        Outcome::Found(key, r1) => match spec_object(r1) {
            Outcome::Found(object, r2) => match spec_definition_tail(r2) {
                Outcome::Found(_, r3) => Outcome::Found((key, object), r3),
                Outcome::NotFound => Outcome::NotFound,
                Outcome::Error(e) => Outcome::Error(e),
            },
            Outcome::NotFound => Outcome::NotFound,
            Outcome::Error(e) => Outcome::Error(e),
        },
        Outcome::NotFound => Outcome::NotFound,
        Outcome::Error(e) => Outcome::Error(e),
    }
}

/// Recognizes the start of a definition: `N G obj`.
pub fn definition_head<'a>(data: &'a [u8]) -> (r: Res<'a, Key>)
    ensures
        r.parsed(spec_definition_head(data@)),
        r matches Res::Found(f) ==> f.remaining@.len() < data@.len(),
{
    let header = match reference_header(data) {
        Res::Found(f) => f,
        Res::NotFound => {
            return Res::NotFound;
        },
        Res::Error(e) => {
            return Res::Error(e);
        },
    };
    proof {
        reveal_strlit("obj");
        vstd::string::is_ascii_spec_bytes("obj");
        assert("obj".spec_bytes() =~= keyword_obj());
    }
    let after = match exact(consume_whitespace(header.remaining), "obj") {
        Res::Found(f) => f.remaining,
        Res::NotFound => {
            return Res::NotFound;
        },
        Res::Error(e) => {
            return Res::Error(e);
        },
    };
    Res::found(header.data, consume_whitespace(after))
}

/// Recognizes the end of a definition: `endobj`.
pub fn definition_tail<'a>(data: &'a [u8]) -> (r: Res<'a, ()>)
    ensures
        r.parsed(spec_definition_tail(data@)),
        r matches Res::Found(f) ==> f.remaining@.len() <= data@.len(),
{
    proof {
        reveal_strlit("endobj");
        vstd::string::is_ascii_spec_bytes("endobj");
        assert("endobj".spec_bytes() =~= keyword_endobj());
    }
    exact(consume_whitespace(data), "endobj")
}

/// Recognizes the definition of an indirect object that is no stream.
pub fn definition<'a>(data: &'a [u8]) -> (r: Res<'a, Definition>)
    ensures
        r.parsed(spec_definition(data@)),
{
    let head = match definition_head(data) {
        Res::Found(f) => f,
        Res::NotFound => {
            return Res::NotFound;
        },
        Res::Error(e) => {
            return Res::Error(e);
        },
    };
    let obj = match object(head.remaining) {
        Res::Found(f) => f,
        Res::NotFound => {
            return Res::NotFound;
        },
        Res::Error(e) => {
            return Res::Error(e);
        },
    };
    match definition_tail(obj.remaining) {
        Res::Found(f) => Res::found(Definition::new(head.data, obj.data), f.remaining),
        Res::NotFound => Res::NotFound,
        Res::Error(e) => Res::Error(e),
    }
}

} // verus!
