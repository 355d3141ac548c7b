//! Cross-reference sections, as tables of text and as binary streams, and
//! the trailer.

use std::collections::HashMap;
use vstd::prelude::*;
use vstd::string::StringSliceAdditionalSpecFns;
use vstd::slice::slice_subrange;
use crate::error::Error;
use crate::lexer::{
    Res,
    Found,
    Outcome,
    tail,
    exact,
    spec_exact,
    consume_whitespace,
    spec_consume_whitespace,
    lemma_consume_whitespace,
};
use crate::number::{
    parse_decimal,
    spec_parse_decimal,
    nonnegative_integer,
    spec_nonnegative_integer,
    binary_integer,
    spec_binary_integer,
};
use crate::object::{Key, PdfObject, PdfDictionary, Object};
use crate::access::{filter_map, entry_as};
use crate::parse::{dictionary, spec_dictionary, Definition};
use crate::stream::{
    stream_definition,
    spec_stream_definition,
    spec_apply_filters,
    Unresolved,
    Resolver,
};

verus! {

broadcast use vstd::std_specs::hash::group_hash_axioms;

/// What a cross-reference entry says of its object: that it is free, that it
/// stands in the file, or that it stands in an object stream.
#[derive(Debug, Clone, Copy, PartialEq, Eq, Structural)]
pub enum XrefType {
    Free,
    InUse,
    Compressed,
}

/// One entry of a cross-reference section, as it is written. For an object
/// in an object stream the offset is the number of that stream.
#[derive(Debug, Clone, Copy, PartialEq, Eq, Structural)]
pub struct XrefEntry {
    pub offset: u64,
    pub generation_number: u64,
    pub type_: XrefType,
}

impl View for XrefEntry {
    type V = XrefEntry;

    open spec fn view(&self) -> XrefEntry {
        *self
    }
}

impl XrefEntry {
    /// The entry with the given fields.
    pub fn new(offset: u64, generation_number: u64, type_: XrefType) -> (r: XrefEntry)
        ensures
            r == (XrefEntry { offset, generation_number, type_ }),
    {
        XrefEntry { offset, generation_number, type_ }
    }
}

/// One entry of a cross-reference section, with the key of its object.
#[derive(Debug, Clone, Copy, PartialEq, Eq, Structural)]
pub struct Xref {
    pub offset: u64,
    pub type_: XrefType,
    pub key: Key,
}

impl Xref {
    /// What `entry` says, of the object with the number `object_number`.
    pub open spec fn spec_from(entry: XrefEntry, object_number: u64) -> Xref {
        Xref {
            offset: entry.offset,
            type_: entry.type_,
            key: Key { object: object_number, generation: entry.generation_number },
        }
    }

    /// What `entry` says, of the object with the number `object_number`.
    pub fn from(entry: XrefEntry, object_number: u64) -> (r: Xref)
        ensures
            r == Self::spec_from(entry, object_number),
    {
        Xref {
            offset: entry.offset,
            type_: entry.type_,
            key: Key { object: object_number, generation: entry.generation_number },
        }
    }

    /// The entry with the given fields.
    pub fn new(offset: u64, object_number: u64, generation_number: u64, type_: XrefType) -> (r:
        Xref)
        ensures
            r == (Xref {
                offset,
                type_,
                key: Key { object: object_number, generation: generation_number },
            }),
    {
        Xref { offset, type_, key: Key { object: object_number, generation: generation_number } }
    }
}

/// Whether two bytes are one of the line ends of two bytes that close an
/// entry: SP CR, SP LF or CR LF.
pub open spec fn is_entry_end(first: u8, second: u8) -> bool {
    (first == 0x20 && second == 0x0D) || (first == 0x20 && second == 0x0A) || (first == 0x0D
        && second == 0x0A)
}

/// What the byte `data` says of an object: `n` that it is in use, `f` that
/// it is free.
pub open spec fn spec_entry_type(data: u8) -> Option<XrefType> {
    if data == 'n' as u8 {
        Some(XrefType::InUse)
    } else if data == 'f' as u8 {
        Some(XrefType::Free)
    } else {
        None
    }
}

/// An entry of a cross-reference table at the start of `s`: twenty bytes,
/// which are the offset in ten digits, a space, the generation in five
/// digits, a space, `n` or `f`, and a line end of two bytes. The two
/// numbers are digits and nothing else: no sign stands before them.
pub open spec fn spec_xref_entry(s: Seq<u8>) -> Outcome<XrefEntry> {
    if s.len() < 20 {
        Outcome::NotFound
    } else {
        match (
            spec_parse_decimal(s.subrange(0, 10)),
            spec_parse_decimal(s.subrange(11, 16)),
            spec_entry_type(s[17]),
        ) {
            (Some(offset), Some(generation_number), Some(type_)) => {
                if s[10] == 0x20 && s[16] == 0x20 && is_entry_end(s[18], s[19]) {
                    Outcome::Found(XrefEntry { offset, generation_number, type_ }, s.skip(20))
                } else {
                    Outcome::NotFound
                }
            },
            _ => Outcome::NotFound,
        }
    }
}

/// Recognizes one entry of a cross-reference table.
pub fn xref_entry<'a>(data: &'a [u8]) -> (r: Res<'a, XrefEntry>)
    ensures
        r.parsed(spec_xref_entry(data@)),
        r matches Res::Found(f) ==> f.remaining@.len() + 20 == data@.len(),
{
    if data.len() < 20 {
        return Res::NotFound;
    }
    let offset: u64 = match parse_decimal(slice_subrange(data, 0, 10)) {
        Some(v) => v,
        None => {
            return Res::NotFound;
        },
    };
    let generation_number: u64 = match parse_decimal(slice_subrange(data, 11, 16)) {
        Some(v) => v,
        None => {
            return Res::NotFound;
        },
    };
    let type_: XrefType = if data[17] == 0x6E {
        XrefType::InUse
    } else if data[17] == 0x66 {
        XrefType::Free
    } else {
        return Res::NotFound;
    };
    if data[10] != 0x20 || data[16] != 0x20 {
        return Res::NotFound;
    }
    let first: u8 = data[18];
    let second: u8 = data[19];
    if !((first == 0x20 && second == 0x0D) || (first == 0x20 && second == 0x0A) || (first == 0x0D
        && second == 0x0A)) {
        return Res::NotFound;
    }
    Res::found(XrefEntry { offset, generation_number, type_ }, tail(data, 20))
}

/// The bytes of the keyword `xref`.
pub open spec fn keyword_xref() -> Seq<u8> {
    seq!['x' as u8, 'r' as u8, 'e' as u8, 'f' as u8]
}

/// The `count` entries of a subsection at the start of `s`, for the objects
/// numbered from `first` on, put into `acc`. `MalformedXref` where an entry
/// is missing or an object number passes 64 bits.
pub open spec fn spec_xref_entries(s: Seq<u8>, first: u64, count: u64, acc: Map<u64, Xref>) -> Outcome<
    Map<u64, Xref>,
>
    decreases count,
{
    if count == 0 {
        Outcome::Found(acc, s)
    } else {
        match spec_xref_entry(s) {
            Outcome::Found(entry, rest) => {
                if first == u64::MAX && count > 1 {
                    Outcome::Error(Error::MalformedXref)
                } else {
                    spec_xref_entries(
                        rest,
                        if first == u64::MAX {
                            first
                        } else {
                            (first + 1) as u64
                        },
                        (count - 1) as u64,
                        acc.insert(first, Xref::spec_from(entry, first)),
                    )
                }
            },
            _ => Outcome::Error(Error::MalformedXref),
        }
    }
}

/// The subsections of a cross-reference table from `s` on, after white
/// space, put into `acc`: each is the number of its first object, the count
/// of its entries, and the entries. `MalformedXref` where a subsection is
/// cut short, or where there is none at all and `seen` is not set.
pub open spec fn spec_xref_subsections(s: Seq<u8>, acc: Map<u64, Xref>, seen: bool) -> Outcome<
    Map<u64, Xref>,
>
    decreases s.len(),
{
    let t = spec_consume_whitespace(s);
    match spec_nonnegative_integer(t) {
        Outcome::Found(first, r1) => match spec_nonnegative_integer(spec_consume_whitespace(r1)) {
            Outcome::Found(count, r2) => match spec_xref_entries(
                spec_consume_whitespace(r2),
                first,
                count,
                acc,
            ) {
                Outcome::Found(grown, r3) => {
                    if r3.len() < s.len() {
                        spec_xref_subsections(r3, grown, true)
                    } else {
                        Outcome::Error(Error::MalformedXref)
                    }
                },
                _ => Outcome::Error(Error::MalformedXref),
            },
            _ => Outcome::Error(Error::MalformedXref),
        },
        _ => if seen {
            Outcome::Found(acc, t)
        } else {
            Outcome::Error(Error::MalformedXref)
        },
    }
}

/// A cross-reference table at the start of `s`: the keyword `xref` and one
/// or more subsections. Not found where the keyword is not there;
/// `MalformedXref` where what follows the keyword is no table.
pub open spec fn spec_xref_table(s: Seq<u8>) -> Outcome<Map<u64, Xref>> {
    match spec_exact(s, keyword_xref()) {
        Outcome::Found(_, rest) => spec_xref_subsections(rest, Map::empty(), false),
        Outcome::NotFound => Outcome::NotFound,
        Outcome::Error(e) => Outcome::Error(e),
    }
}

/// Reads the `count` entries of a subsection into `table`.
fn xref_entries<'a>(data: &'a [u8], first: u64, count: u64, table: &mut HashMap<u64, Xref>) -> (r:
    Res<'a, ()>)
    ensures
        match spec_xref_entries(data@, first, count, old(table)@) {
            Outcome::Found(grown, rest) => r matches Res::Found(f) && f.remaining@ == rest
                && final(table)@ == grown,
            Outcome::NotFound => r is NotFound,
            Outcome::Error(e) => r matches Res::Error(f) && f == e,
        },
        r matches Res::Found(f) ==> f.remaining@.len() <= data@.len(),
{
    let mut cur: &[u8] = data;
    let mut number: u64 = first;
    let mut left: u64 = count;
    while left > 0
        invariant
            cur@.len() <= data@.len(),
            spec_xref_entries(data@, first, count, old(table)@) == spec_xref_entries(
                cur@,
                number,
                left,
                table@,
            ),
        decreases left,
    {
        let entry = match xref_entry(cur) {
            Res::Found(f) => f,
            _ => {
                return Res::Error(Error::MalformedXref);
            },
        };
        if number == u64::MAX && left > 1 {
            return Res::Error(Error::MalformedXref);
        }
        let xref = Xref::from(entry.data, number);
        table.insert(number, xref);
        if number < u64::MAX {
            number = number + 1;
        }
        left = left - 1;
        cur = entry.remaining;
    }
    Res::found((), cur)
}

/// Recognizes a cross-reference table and gives its entries by object
/// number.
pub fn xref_table<'a>(data: &'a [u8]) -> (r: Res<'a, HashMap<u64, Xref>>)
    ensures
        r.parsed(spec_xref_table(data@)),
{
    proof {
        reveal_strlit("xref");
        vstd::string::is_ascii_spec_bytes("xref");
        assert("xref".spec_bytes() =~= keyword_xref());
    }
    let mut cur: &[u8] = match exact(data, "xref") {
        Res::Found(f) => f.remaining,
        Res::NotFound => {
            return Res::NotFound;
        },
        Res::Error(e) => {
            return Res::Error(e);
        },
    };
    let ghost start = cur@;
    let mut table: HashMap<u64, Xref> = HashMap::new();
    let mut seen: bool = false;
    loop
        invariant
            spec_xref_table(data@) == spec_xref_subsections(start, Map::empty(), false),
            spec_xref_subsections(start, Map::empty(), false) == spec_xref_subsections(
                cur@,
                table@,
                seen,
            ),
        decreases cur@.len(),
    {
        let here: &[u8] = consume_whitespace(cur);
        let first = match nonnegative_integer(here) {
            Res::Found(f) => f,
            _ => {
                if seen {
                    return Res::found(table, here);
                }
                return Res::Error(Error::MalformedXref);
            },
        };
        let count = match nonnegative_integer(consume_whitespace(first.remaining)) {
            Res::Found(f) => f,
            _ => {
                return Res::Error(Error::MalformedXref);
            },
        };
        match xref_entries(consume_whitespace(count.remaining), first.data, count.data, &mut table) {
            Res::Found(f) => {
                cur = f.remaining;
                seen = true;
            },
            _ => {
                return Res::Error(Error::MalformedXref);
            },
        }
    }
}

/// An entry of a cross-reference stream at the start of `s`: three
/// big-endian fields of `w0`, `w1` and `w2` bytes, which are the type (0
/// free, 1 in use, 2 in an object stream; any other reads as free), the
/// offset and the generation.
pub open spec fn spec_xref_binary_entry(s: Seq<u8>, w0: nat, w1: nat, w2: nat) -> Outcome<
    XrefEntry,
> {
    match spec_binary_integer(s, w0) {
        Outcome::Found(kind, r1) => match spec_binary_integer(r1, w1) {
            Outcome::Found(offset, r2) => match spec_binary_integer(r2, w2) {
                Outcome::Found(generation_number, r3) => Outcome::Found(
                    XrefEntry {
                        offset,
                        generation_number,
                        type_: if kind == 1 {
                            XrefType::InUse
                        } else if kind == 2 {
                            XrefType::Compressed
                        } else {
                            XrefType::Free
                        },
                    },
                    r3,
                ),
                Outcome::NotFound => Outcome::NotFound,
                Outcome::Error(e) => Outcome::Error(e),
            },
            Outcome::NotFound => Outcome::NotFound,
            Outcome::Error(e) => Outcome::Error(e),
        },
        Outcome::NotFound => Outcome::NotFound,
        Outcome::Error(e) => Outcome::Error(e),
    }
}

/// Recognizes one entry of a cross-reference stream, whose three fields have
/// the widths `w[0]`, `w[1]` and `w[2]`.
pub fn xref_binary_entry<'a>(data: &'a [u8], w: &[usize]) -> (r: Res<'a, XrefEntry>)
    requires
        w@.len() >= 3,
    ensures
        r.parsed(spec_xref_binary_entry(data@, w@[0] as nat, w@[1] as nat, w@[2] as nat)),
        r matches Res::Found(f) ==> f.remaining@.len() + w@[0] + w@[1] + w@[2] == data@.len(),
{
    let kind = match binary_integer(data, w[0]) {
        Res::Found(f) => f,
        Res::NotFound => {
            return Res::NotFound;
        },
        Res::Error(e) => {
            return Res::Error(e);
        },
    };
    let offset = match binary_integer(kind.remaining, w[1]) {
        Res::Found(f) => f,
        Res::NotFound => {
            return Res::NotFound;
        },
        Res::Error(e) => {
            return Res::Error(e);
        },
    };
    let generation = match binary_integer(offset.remaining, w[2]) {
        Res::Found(f) => f,
        Res::NotFound => {
            return Res::NotFound;
        },
        Res::Error(e) => {
            return Res::Error(e);
        },
    };
    let xref_type: XrefType = if kind.data == 1 {
        XrefType::InUse
    } else if kind.data == 2 {
        XrefType::Compressed
    } else {
        XrefType::Free
    };
    Res::found(
        XrefEntry { offset: offset.data, generation_number: generation.data, type_: xref_type },
        generation.remaining,
    )
}

/// The entries of a cross-reference stream from `s` on, to its end, for the
/// objects numbered from `next` on, put into `acc`. `MalformedXref` where an
/// entry takes no bytes or an object number passes 64 bits.
pub open spec fn spec_xref_binary_entries(
    s: Seq<u8>,
    w0: nat,
    w1: nat,
    w2: nat,
    acc: Map<u64, Xref>,
    next: u64,
) -> Outcome<Map<u64, Xref>>
    decreases s.len(),
{
    if s.len() == 0 {
        Outcome::Found(acc, s)
    } else {
        match spec_xref_binary_entry(s, w0, w1, w2) {
            Outcome::Found(entry, rest) => {
                if rest.len() < s.len() && next < u64::MAX {
                    spec_xref_binary_entries(
                        rest,
                        w0,
                        w1,
                        w2,
                        acc.insert(next, Xref::spec_from(entry, next)),
                        (next + 1) as u64,
                    )
                } else {
                    Outcome::Error(Error::MalformedXref)
                }
            },
            Outcome::NotFound => Outcome::NotFound,
            Outcome::Error(e) => Outcome::Error(e),
        }
    }
}

/// The table that the data `s` of a cross-reference stream hold, for the
/// objects numbered from 0 on.
pub open spec fn spec_xref_binary_table(s: Seq<u8>, w0: nat, w1: nat, w2: nat) -> Outcome<
    Map<u64, Xref>,
> {
    spec_xref_binary_entries(s, w0, w1, w2, Map::empty(), 0)
}

/// Recognizes the entries of a cross-reference stream, to the end of its
/// data.
pub fn xref_binary_table<'a>(data: &'a [u8], w: &[usize]) -> (r: Res<'a, HashMap<u64, Xref>>)
    requires
        w@.len() >= 3,
    ensures
        r.parsed(spec_xref_binary_table(data@, w@[0] as nat, w@[1] as nat, w@[2] as nat)),
{
    let mut xref_table: HashMap<u64, Xref> = HashMap::new();
    let mut object_number: u64 = 0;
    let mut cur: &[u8] = data;
    while cur.len() > 0
        invariant
            w@.len() >= 3,
            spec_xref_binary_table(data@, w@[0] as nat, w@[1] as nat, w@[2] as nat)
                == spec_xref_binary_entries(
                cur@,
                w@[0] as nat,
                w@[1] as nat,
                w@[2] as nat,
                xref_table@,
                object_number,
            ),
        decreases cur@.len(),
    {
        let entry = match xref_binary_entry(cur, w) {
            Res::Found(f) => f,
            Res::NotFound => {
                return Res::NotFound;
            },
            Res::Error(e) => {
                return Res::Error(e);
            },
        };
        if entry.remaining.len() >= cur.len() || object_number == u64::MAX {
            return Res::Error(Error::MalformedXref);
        }
        let xref = Xref::from(entry.data, object_number);
        xref_table.insert(object_number, xref);
        object_number = object_number + 1;
        cur = entry.remaining;
    }
    Res::found(xref_table, cur)
}

/// The entries of one subsection of a cross-reference stream: `count`
/// entries from `s` on, for the objects numbered from `next` on, put into
/// `acc`. Not found where the data end before the last of them;
/// `MalformedXref` where an entry takes no bytes or an object number passes
/// 64 bits.
pub open spec fn spec_xref_binary_run(
    s: Seq<u8>,
    w0: nat,
    w1: nat,
    w2: nat,
    acc: Map<u64, Xref>,
    next: u64,
    count: nat,
) -> Outcome<Map<u64, Xref>>
    decreases count,
{
    if count == 0 {
        Outcome::Found(acc, s)
    } else {
        match spec_xref_binary_entry(s, w0, w1, w2) {
            Outcome::Found(entry, rest) => {
                if rest.len() < s.len() && next < u64::MAX {
                    spec_xref_binary_run(
                        rest,
                        w0,
                        w1,
                        w2,
                        acc.insert(next, Xref::spec_from(entry, next)),
                        (next + 1) as u64,
                        (count - 1) as nat,
                    )
                } else {
                    Outcome::Error(Error::MalformedXref)
                }
            },
            Outcome::NotFound => Outcome::NotFound,
            Outcome::Error(e) => Outcome::Error(e),
        }
    }
}

/// The table that the data `s` of a cross-reference stream hold under the
/// subsections `index`: pairs of the number of the first object of a
/// subsection and the count of its entries. The subsections follow each
/// other in the data; a later entry for an object replaces an earlier one.
pub open spec fn spec_xref_binary_sections(
    s: Seq<u8>,
    w0: nat,
    w1: nat,
    w2: nat,
    index: Seq<i64>,
    acc: Map<u64, Xref>,
) -> Outcome<Map<u64, Xref>>
    decreases index.len(),
{
    if index.len() < 2 {
        Outcome::Found(acc, s)
    } else {
        match spec_xref_binary_run(s, w0, w1, w2, acc, index[0] as u64, index[1] as nat) {
            Outcome::Found(table, rest) => spec_xref_binary_sections(
                rest,
                w0,
                w1,
                w2,
                index.skip(2),
                table,
            ),
            Outcome::NotFound => Outcome::NotFound,
            Outcome::Error(e) => Outcome::Error(e),
        }
    }
}

/// Recognizes the entries of one subsection of a cross-reference stream and
/// puts them into the table.
fn xref_binary_run<'a>(
    data: &'a [u8],
    w: &[usize],
    xref_table: &mut HashMap<u64, Xref>,
    first: u64,
    count: u64,
) -> (r: Res<'a, ()>)
    requires
        w@.len() >= 3,
    ensures
        match spec_xref_binary_run(
            data@,
            w@[0] as nat,
            w@[1] as nat,
            w@[2] as nat,
            old(xref_table)@,
            first,
            count as nat,
        ) {
            Outcome::Found(table, rest) => r is Found && r->Found_0.remaining@ == rest
                && final(xref_table)@ == table,
            Outcome::NotFound => r is NotFound,
            Outcome::Error(e) => r == Res::<()>::Error(e),
        },
{
    let mut object_number: u64 = first;
    let mut left: u64 = count;
    let mut cur: &[u8] = data;
    while left > 0
        invariant
            w@.len() >= 3,
            spec_xref_binary_run(
                data@,
                w@[0] as nat,
                w@[1] as nat,
                w@[2] as nat,
                old(xref_table)@,
                first,
                count as nat,
            ) == spec_xref_binary_run(
                cur@,
                w@[0] as nat,
                w@[1] as nat,
                w@[2] as nat,
                xref_table@,
                object_number,
                left as nat,
            ),
        decreases left,
    {
        let entry = match xref_binary_entry(cur, w) {
            Res::Found(f) => f,
            Res::NotFound => {
                return Res::NotFound;
            },
            Res::Error(e) => {
                return Res::Error(e);
            },
        };
        if entry.remaining.len() >= cur.len() || object_number == u64::MAX {
            return Res::Error(Error::MalformedXref);
        }
        let xref = Xref::from(entry.data, object_number);
        xref_table.insert(object_number, xref);
        object_number = object_number + 1;
        left = left - 1;
        cur = entry.remaining;
    }
    Res::found((), cur)
}

/// Recognizes the entries of a cross-reference stream, subsection by
/// subsection.
pub fn xref_binary_sections<'a>(data: &'a [u8], w: &[usize], index: &[i64]) -> (r: Res<
    'a,
    HashMap<u64, Xref>,
>)
    requires
        w@.len() >= 3,
        forall|i: int| 0 <= i < index@.len() ==> index@[i] >= 0,
    ensures
        r.parsed(
            spec_xref_binary_sections(
                data@,
                w@[0] as nat,
                w@[1] as nat,
                w@[2] as nat,
                index@,
                Map::empty(),
            ),
        ),
{
    let mut xref_table: HashMap<u64, Xref> = HashMap::new();
    let mut cur: &[u8] = data;
    let mut at: usize = 0;
    assert(index@.skip(0) =~= index@);
    while index.len() - at >= 2
        invariant
            w@.len() >= 3,
            at <= index@.len(),
            forall|i: int| 0 <= i < index@.len() ==> index@[i] >= 0,
            spec_xref_binary_sections(
                data@,
                w@[0] as nat,
                w@[1] as nat,
                w@[2] as nat,
                index@,
                Map::empty(),
            ) == spec_xref_binary_sections(
                cur@,
                w@[0] as nat,
                w@[1] as nat,
                w@[2] as nat,
                index@.skip(at as int),
                xref_table@,
            ),
        decreases index@.len() - at,
    {
        proof {
            assert(index@.skip(at as int).skip(2) =~= index@.skip(at + 2));
            assert(index@.skip(at as int)[0] == index@[at as int]);
            assert(index@.skip(at as int)[1] == index@[at + 1]);
        }
        let first: u64 = index[at] as u64;
        let count: u64 = index[at + 1] as u64;
        match xref_binary_run(cur, w, &mut xref_table, first, count) {
            Res::Found(f) => {
                cur = f.remaining;
            },
            Res::NotFound => {
                return Res::NotFound;
            },
            Res::Error(e) => {
                return Res::Error(e);
            },
        }
        at = at + 2;
    }
    Res::found(xref_table, cur)
}

/// The subsections that the dictionary of a cross-reference stream gives
/// under `Index`: the integers of an array, an even number of them and none
/// below zero.
pub open spec fn spec_index(dict: Map<Seq<u8>, Object>) -> Option<Seq<i64>> {
    if dict.contains_key("Index".spec_bytes()) {
        match dict["Index".spec_bytes()] {
            Object::Array(items) => {
                let index = filter_map(items, |o: Object| o.as_integer());
                if index.len() % 2 == 0 && (forall|i: int| 0 <= i < index.len() ==> index[i] >= 0) {
                    Some(index)
                } else {
                    None
                }
            },
            _ => None,
        }
    } else {
        None
    }
}

/// The number of objects that the dictionary of a cross-reference stream
/// gives under `Size`: an integer, not below zero.
pub open spec fn spec_size(dict: Map<Seq<u8>, Object>) -> Option<i64> {
    match entry_as(dict, "Size".spec_bytes(), |o: Object| o.as_integer()) {
        Some(size) => if size >= 0 {
            Some(size)
        } else {
            None
        },
        None => None,
    }
}

/// The table that the data `s` of a cross-reference stream hold, with the
/// dictionary `dict` of the stream: under the subsections of `Index` where
/// the dictionary has that entry; under one subsection from 0 on, of `Size`
/// entries, where it has no `Index` and gives a size; to the end of the
/// data, for the objects numbered from 0 on, where it has neither.
/// `MalformedXref` where `Index` is amiss.
pub open spec fn spec_xref_stream_table(
    s: Seq<u8>,
    w0: nat,
    w1: nat,
    w2: nat,
    dict: Map<Seq<u8>, Object>,
) -> Outcome<Map<u64, Xref>> {
    if dict.contains_key("Index".spec_bytes()) {
        match spec_index(dict) {
            Some(index) => spec_xref_binary_sections(s, w0, w1, w2, index, Map::empty()),
            None => Outcome::Error(Error::MalformedXref),
        }
    } else {
        match spec_size(dict) {
            Some(size) => spec_xref_binary_sections(s, w0, w1, w2, seq![0i64, size], Map::empty()),
            None => spec_xref_binary_table(s, w0, w1, w2),
        }
    }
}

/// The subsections that a dictionary gives under `Index`.
fn index_of(dictionary: &PdfDictionary) -> (r: Option<Vec<i64>>)
    ensures
        match spec_index(dictionary@) {
            Some(index) => r is Some && r->Some_0@ == index,
            None => r is None,
        },
{
    let given = match dictionary.get("Index") {
        Some(o) => match o.as_integer_array() {
            Some(v) => v,
            None => {
                return None;
            },
        },
        None => {
            return None;
        },
    };
    if given.len() % 2 != 0 {
        return None;
    }
    let mut i: usize = 0;
    while i < given.len()
        invariant
            i <= given@.len(),
            forall|j: int| 0 <= j < i ==> given@[j] >= 0,
            spec_index(dictionary@) == if forall|j: int| 0 <= j < given@.len() ==> given@[j] >= 0 {
                Some(given@)
            } else {
                None
            },
        decreases given@.len() - i,
    {
        if given[i] < 0 {
            assert(given@[i as int] < 0);
            return None;
        }
        i = i + 1;
    }
    Some(given)
}

/// Recognizes the table in the data of a cross-reference stream, with the
/// dictionary of the stream.
fn xref_stream_table<'a>(data: &'a [u8], w: &[usize], dictionary: &PdfDictionary) -> (r: Res<
    'a,
    HashMap<u64, Xref>,
>)
    requires
        w@.len() >= 3,
    ensures
        r.parsed(
            spec_xref_stream_table(
                data@,
                w@[0] as nat,
                w@[1] as nat,
                w@[2] as nat,
                dictionary@,
            ),
        ),
{
    if dictionary.get("Index").is_some() {
        return match index_of(dictionary) {
            Some(index) => xref_binary_sections(data, w, index.as_slice()),
            None => Res::Error(Error::MalformedXref),
        };
    }
    match dictionary.integer("Size") {
        Some(size) => {
            if size >= 0 {
                let mut index: Vec<i64> = Vec::new();
                index.push(0);
                index.push(size);
                assert(index@ =~= seq![0i64, size]);
                xref_binary_sections(data, w, index.as_slice())
            } else {
                xref_binary_table(data, w)
            }
        },
        None => xref_binary_table(data, w),
    }
}

/// The widths of the three fields that the dictionary of a cross-reference
/// stream gives under `W`: three integers, each from 0 to 8.
pub open spec fn spec_widths(dict: Map<Seq<u8>, Object>) -> Option<(nat, nat, nat)> {
    if dict.contains_key("W".spec_bytes()) {
        match dict["W".spec_bytes()] {
            Object::Array(items) => {
                let w = filter_map(items, |o: Object| o.as_integer());
                if w.len() == 3 && 0 <= w[0] <= 8 && 0 <= w[1] <= 8 && 0 <= w[2] <= 8 {
                    Some((w[0] as nat, w[1] as nat, w[2] as nat))
                } else {
                    None
                }
            },
            _ => None,
        }
    } else {
        None
    }
}

/// A cross-reference stream at the start of `s`: the definition of a stream
/// whose data, once its filters are applied, are a table of binary entries.
/// The entries are those of the subsections that the dictionary names under
/// `Index`, or of the objects from 0 on, as many as `Size` says, where it
/// names none. Not found where
/// no definition of a stream stands there; `MalformedXref` where its `W` or
/// `Index` is amiss, its filters fail or its data are no table.
pub open spec fn spec_xref_stream(s: Seq<u8>) -> Outcome<Map<u64, Xref>> {
    match spec_stream_definition(s, |k: Key| Unresolved.lookup(k)) {
        Outcome::Found((key, object), rest) => match object {
            Object::Stream(stream) => match spec_widths(stream.dictionary) {
                None => Outcome::Error(Error::MalformedXref),
                Some((w0, w1, w2)) => match spec_apply_filters(stream.filters, stream.data) {
                    Err(_) => Outcome::Error(Error::MalformedXref),
                    Ok(data) => match spec_xref_stream_table(
                        data,
                        w0,
                        w1,
                        w2,
                        stream.dictionary,
                    ) {
                        Outcome::Found(table, _) => Outcome::Found(table, rest),
                        _ => Outcome::Error(Error::MalformedXref),
                    },
                },
            },
            _ => Outcome::Error(Error::MalformedXref),
        },
        Outcome::NotFound => Outcome::NotFound,
        Outcome::Error(e) => Outcome::Error(e),
    }
}

/// The widths that a dictionary gives under `W`.
fn widths(dictionary: &PdfDictionary) -> (r: Option<Vec<usize>>)
    ensures
        match spec_widths(dictionary@) {
            Some((w0, w1, w2)) => r is Some && r->Some_0@.len() == 3 && r->Some_0@[0] == w0
                && r->Some_0@[1] == w1 && r->Some_0@[2] == w2,
            None => r is None,
        },
{
    let given = match dictionary.get("W") {
        Some(o) => match o.as_integer_array() {
            Some(v) => v,
            None => {
                return None;
            },
        },
        None => {
            return None;
        },
    };
    if given.len() != 3 {
        return None;
    }
    if given[0] < 0 || given[0] > 8 || given[1] < 0 || given[1] > 8 || given[2] < 0 || given[2] > 8 {
        return None;
    }
    let mut w: Vec<usize> = Vec::new();
    w.push(given[0] as usize);
    w.push(given[1] as usize);
    w.push(given[2] as usize);
    Some(w)
}

/// Recognizes a cross-reference stream and gives its entries by object
/// number.
pub fn xref_stream<'a>(data: &'a [u8]) -> (r: Res<'a, HashMap<u64, Xref>>)
    ensures
        r.parsed(spec_xref_stream(data@)),
{
    let found = match stream_definition(data, &Unresolved) {
        Res::Found(f) => f,
        Res::NotFound => {
            return Res::NotFound;
        },
        Res::Error(e) => {
            return Res::Error(e);
        },
    };
    let rest: &[u8] = found.remaining;
    let mut stream = match found.data.object {
        PdfObject::Stream(s) => s,
        _ => {
            return Res::Error(Error::MalformedXref);
        },
    };
    let w = match widths(&stream.metadata.dictionary) {
        Some(w) => w,
        None => {
            return Res::Error(Error::MalformedXref);
        },
    };
    match stream.apply_filters() {
        Ok(()) => {},
        Err(_) => {
            return Res::Error(Error::MalformedXref);
        },
    }
    match xref_stream_table(stream.data.as_slice(), w.as_slice(), &stream.metadata.dictionary) {
        Res::Found(f) => Res::found(f.data, rest),
        _ => Res::Error(Error::MalformedXref),
    }
}

/// The bytes of the keyword `trailer`.
pub open spec fn keyword_trailer() -> Seq<u8> {
    seq!['t' as u8, 'r' as u8, 'a' as u8, 'i' as u8, 'l' as u8, 'e' as u8, 'r' as u8]
}

/// The trailer at the start of `s`: the keyword `trailer`, white space, and
/// a dictionary.
pub open spec fn spec_trailer(s: Seq<u8>) -> Outcome<Map<Seq<u8>, Object>> {
    match spec_exact(s, keyword_trailer()) {
        Outcome::Found(_, rest) => spec_dictionary(spec_consume_whitespace(rest)),
        Outcome::NotFound => Outcome::NotFound,
        Outcome::Error(e) => Outcome::Error(e),
    }
}

/// Recognizes the trailer and gives its dictionary.
pub fn trailer<'a>(data: &'a [u8]) -> (r: Res<'a, PdfDictionary>)
    ensures
        r.parsed(spec_trailer(data@)),
{
    proof {
        reveal_strlit("trailer");
        vstd::string::is_ascii_spec_bytes("trailer");
        assert("trailer".spec_bytes() =~= keyword_trailer());
    }
    let after = match exact(data, "trailer") {
        Res::Found(f) => f.remaining,
        Res::NotFound => {
            return Res::NotFound;
        },
        Res::Error(e) => {
            return Res::Error(e);
        },
    };
    dictionary(consume_whitespace(after))
}

} // verus!
