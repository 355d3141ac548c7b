//! What objects read as: numbers, text and rectangles, and number trees.

use std::collections::HashMap;
use vstd::prelude::*;
use vstd::string::StringSliceAdditionalSpecFns;
use vstd::utf8::{valid_utf8, encode_utf8};
use crate::decimal::{Real, RealModel};
use crate::document::{Pdf, Document};
use crate::header::copy_bytes;
use crate::object::{Key, PdfObject, PdfDictionary, Object, objects_model};
use crate::access::{filter_map, entry_as};
use crate::text::string_from_utf8;

verus! {

broadcast use vstd::std_specs::hash::group_hash_axioms;

/// A type whose values objects can be read as.
pub trait OptionalFrom: Sized {
    /// Whether `value` is what `obj` reads as in `document`.
    spec fn reads(obj: Object, document: Document, value: Option<Self>) -> bool;

    /// What `obj` reads as; none where it reads as no value of the type.
    fn from(obj: &PdfObject, pdf: &mut Pdf) -> (r: Option<Self>)
        requires
            old(pdf).well_formed(),
        ensures
            final(pdf).well_formed(),
            old(pdf)@.resolved_to(final(pdf)@),
            Self::reads(obj@, old(pdf)@, r),
    ;
}

impl OptionalFrom for u64 {
    open spec fn reads(obj: Object, document: Document, value: Option<u64>) -> bool {
        value == obj.as_unsigned()
    }

    fn from(obj: &PdfObject, pdf: &mut Pdf) -> (r: Option<u64>) {
        obj.as_unsigned()
    }
}

impl OptionalFrom for i64 {
    open spec fn reads(obj: Object, document: Document, value: Option<i64>) -> bool {
        value == obj.as_integer()
    }

    fn from(obj: &PdfObject, pdf: &mut Pdf) -> (r: Option<i64>) {
        obj.as_integer()
    }
}

impl OptionalFrom for Real {
    open spec fn reads(obj: Object, document: Document, value: Option<Real>) -> bool {
        match obj.as_float() {
            Some(x) => value is Some && value->Some_0@ == x,
            None => value is None,
        }
    }

    fn from(obj: &PdfObject, pdf: &mut Pdf) -> (r: Option<Real>) {
        obj.as_float()
    }
}

impl OptionalFrom for Vec<u64> {
    open spec fn reads(obj: Object, document: Document, value: Option<Vec<u64>>) -> bool {
        match obj.as_array() {
            Some(items) => value is Some && value->Some_0@ == filter_map(
                items,
                |o: Object| o.as_unsigned(),
            ),
            None => value is None,
        }
    }

    fn from(obj: &PdfObject, pdf: &mut Pdf) -> (r: Option<Vec<u64>>) {
        obj.as_unsigned_array()
    }
}

impl OptionalFrom for Vec<i64> {
    open spec fn reads(obj: Object, document: Document, value: Option<Vec<i64>>) -> bool {
        match obj.as_array() {
            Some(items) => value is Some && value->Some_0@ == filter_map(
                items,
                |o: Object| o.as_integer(),
            ),
            None => value is None,
        }
    }

    fn from(obj: &PdfObject, pdf: &mut Pdf) -> (r: Option<Vec<i64>>) {
        obj.as_integer_array()
    }
}

impl OptionalFrom for Vec<u8> {
    open spec fn reads(obj: Object, document: Document, value: Option<Vec<u8>>) -> bool {
        match obj.as_string() {
            Some(bytes) => value is Some && value->Some_0@ == bytes,
            None => value is None,
        }
    }

    fn from(obj: &PdfObject, pdf: &mut Pdf) -> (r: Option<Vec<u8>>) {
        match obj.as_string() {
            Some(bytes) => Some(copy_bytes(bytes.as_slice())),
            None => None,
        }
    }
}

/// The bytes that an object gives as text: those of a string that is valid
/// UTF-8, or else those of a name that is.
pub open spec fn text_bytes(obj: Object) -> Option<Seq<u8>> {
    match obj {
        Object::String(bytes) => if valid_utf8(bytes) {
            Some(bytes)
        } else {
            None
        },
        Object::Identifier(name) => if valid_utf8(name) {
            Some(name)
        } else {
            None
        },
        _ => None,
    }
}

impl OptionalFrom for String {
    open spec fn reads(obj: Object, document: Document, value: Option<String>) -> bool {
        match text_bytes(obj) {
            Some(bytes) => value is Some && encode_utf8(value->Some_0@) == bytes,
            None => value is None,
        }
    }

    fn from(obj: &PdfObject, pdf: &mut Pdf) -> (r: Option<String>) {
        match obj {
            PdfObject::String(bytes) => string_from_utf8(copy_bytes(bytes.as_slice())),
            PdfObject::Identifier(name) => string_from_utf8(copy_bytes(name.as_slice())),
            _ => None,
        }
    }
}

/// A rectangle, by its lower left and its upper right corner.
#[derive(Debug, Clone, PartialEq)]
pub struct Rectangle {
    pub ll_x: Real,
    pub ll_y: Real,
    pub ur_x: Real,
    pub ur_y: Real,
}

impl OptionalFrom for Rectangle {
    /// A rectangle is read from an array: its coordinates are the first four
    /// numbers among the items.
    open spec fn reads(obj: Object, document: Document, value: Option<Rectangle>) -> bool {
        match obj.as_array() {
            Some(items) => {
                let numbers = filter_map(items, |o: Object| o.as_float());
                if numbers.len() >= 4 {
                    value is Some && value->Some_0.ll_x@ == numbers[0] && value->Some_0.ll_y@
                        == numbers[1] && value->Some_0.ur_x@ == numbers[2] && value->Some_0.ur_y@
                        == numbers[3]
                } else {
                    value is None
                }
            },
            None => value is None,
        }
    }

    fn from(obj: &PdfObject, pdf: &mut Pdf) -> (r: Option<Rectangle>) {
        let data: Vec<Real> = match obj.as_float_array() {
            Some(v) => v,
            None => {
                return None;
            },
        };
        if data.len() < 4 {
            return None;
        }
        let ghost numbers = Seq::new(data@.len(), |i: int| data@[i]@);
        assert(numbers[0] == data@[0]@ && numbers[1] == data@[1]@ && numbers[2] == data@[2]@
            && numbers[3] == data@[3]@);
        Some(
            Rectangle {
                ll_x: data[0].clone(),
                ll_y: data[1].clone(),
                ur_x: data[2].clone(),
                ur_y: data[3].clone(),
            },
        )
    }
}

/// A node of a number tree: the numbers that it maps to objects, its
/// limits, and the nodes below it.
#[derive(Debug)]
pub struct NumberTreeNode {
    pub kids: Vec<NumberTreeNode>,
    pub nums: HashMap<i64, PdfObject>,
    pub upper_limit: Option<i64>,
    pub lower_limit: Option<i64>,
}

/// The array under `Nums` in the dictionary of a node; empty where there is
/// none.
pub open spec fn spec_nums(d: Map<Seq<u8>, Object>) -> Seq<Object> {
    match entry_as(d, "Nums".spec_bytes(), |o: Object| o.as_array()) {
        Some(items) => items,
        None => Seq::empty(),
    }
}

/// Whether the items of `Nums` are pairs of an integer and a reference, all
/// of them.
pub open spec fn nums_are_pairs(items: Seq<Object>) -> bool {
    &&& items.len() % 2 == 0
    &&& forall|i: int|
        0 <= i < items.len() / 2 ==> (#[trigger] items[2 * i]).as_integer() is Some && items[2 * i
            + 1].as_reference() is Some
}

/// The integers among the items of the array under `Limits`.
pub open spec fn spec_limits(d: Map<Seq<u8>, Object>) -> Seq<i64> {
    match entry_as(d, "Limits".spec_bytes(), |o: Object| o.as_array()) {
        Some(items) => filter_map(items, |o: Object| o.as_integer()),
        None => Seq::empty(),
    }
}

/// Whether `value` is what the dictionary `d` of a node of a number tree
/// reads as: a node where the items of `Nums` are pairs of an integer and a
/// reference, and none where they are not. The node maps each of the
/// integers, and its limits are the first two of `Limits`.
pub open spec fn reads_number_tree(d: Map<Seq<u8>, Object>, value: Option<NumberTreeNode>) -> bool {
    &&& value is Some <==> nums_are_pairs(spec_nums(d))
    &&& value matches Some(node) ==> {
        &&& forall|i: int|
            0 <= i < spec_nums(d).len() / 2 ==> {
                let number = (#[trigger] spec_nums(d)[2 * i]).as_integer()->Some_0;
                node.nums@.contains_key(number)
            }
        &&& node.upper_limit == if spec_limits(d).len() > 0 {
            Some(spec_limits(d)[0])
        } else {
            None
        }
        &&& node.lower_limit == if spec_limits(d).len() > 1 {
            Some(spec_limits(d)[1])
        } else {
            None
        }
    }
}

impl NumberTreeNode {
    /// The node that the dictionary `data` describes, with the nodes below
    /// it; none where the items of `Nums` are not pairs of an integer and a
    /// reference. Each number is mapped to the object that its reference
    /// resolves to. The nodes below are left out where they go deeper than
    /// `depth`, or where one of `Kids` leads to no node.
    pub fn node(data: &PdfDictionary, pdf: &mut Pdf, depth: usize) -> (r: Option<NumberTreeNode>)
        requires
            old(pdf).well_formed(),
        ensures
            final(pdf).well_formed(),
            old(pdf)@.resolved_to(final(pdf)@),
            reads_number_tree(data@, r),
        decreases depth,
    {
        let ghost start = pdf@;
        let empty: Vec<PdfObject> = Vec::new();
        let nums_array: &Vec<PdfObject> = match data.array("Nums") {
            Some(items) => items,
            None => &empty,
        };
        let ghost items = spec_nums(data@);
        assert(objects_model(nums_array@) =~= items);
        if nums_array.len() % 2 != 0 {
            return None;
        }
        let mut nums: HashMap<i64, PdfObject> = HashMap::new();
        let mut i: usize = 0;
        while i < nums_array.len() / 2
            invariant
                i <= nums_array@.len() / 2,
                nums_array@.len() % 2 == 0,
                pdf.well_formed(),
                start == old(pdf)@,
                start.resolved_to(pdf@),
                objects_model(nums_array@) == items,
                items == spec_nums(data@),
                forall|k: int|
                    0 <= k < i ==> (#[trigger] items[2 * k]).as_integer() is Some && items[2 * k
                        + 1].as_reference() is Some && nums@.contains_key(
                        items[2 * k].as_integer()->Some_0,
                    ),
            decreases nums_array@.len() / 2 - i,
        {
            let index: usize = 2 * i;
            assert(items[2 * i] == nums_array@[index as int]@);
            assert(items[2 * i + 1] == nums_array@[index + 1]@);
            let number: i64 = match nums_array[index].as_integer() {
                Some(n) => n,
                None => {
                    return None;
                },
            };
            let key: Key = match nums_array[index + 1].as_reference() {
                Some(k) => *k,
                None => {
                    return None;
                },
            };
            let value: PdfObject = pdf.get(&key);
            nums.insert(number, value);
            i = i + 1;
        }
        let limits: Vec<i64> = match data.integer_array("Limits") {
            Some(v) => v,
            None => Vec::new(),
        };
        let upper_limit: Option<i64> = if limits.len() > 0 {
            Some(limits[0])
        } else {
            None
        };
        let lower_limit: Option<i64> = if limits.len() > 1 {
            Some(limits[1])
        } else {
            None
        };
        let mut kids: Vec<NumberTreeNode> = Vec::new();
        if depth > 0 {
            match data.map_reference_array("Kids", pdf) {
                None => {},
                Some(below) => {
                    let mut k: usize = 0;
                    let mut whole: bool = true;
                    while k < below.len() && whole
                        invariant
                            k <= below@.len(),
                            depth > 0,
                            pdf.well_formed(),
                            start == old(pdf)@,
                            start.resolved_to(pdf@),
                        decreases below@.len() - k,
                    {
                        match NumberTreeNode::node(&below[k], pdf, depth - 1) {
                            Some(kid) => {
                                kids.push(kid);
                            },
                            None => {
                                whole = false;
                            },
                        }
                        k = k + 1;
                    }
                    if !whole {
                        kids = Vec::new();
                    }
                },
            }
        }
        Some(NumberTreeNode { kids, nums, upper_limit, lower_limit })
    }

    /// The number tree whose root the dictionary `data` describes.
    pub fn from(data: &PdfDictionary, pdf: &mut Pdf) -> (r: Option<NumberTreeNode>)
        requires
            old(pdf).well_formed(),
        ensures
            final(pdf).well_formed(),
            old(pdf)@.resolved_to(final(pdf)@),
            reads_number_tree(data@, r),
    {
        let depth: usize = pdf.xref().len();
        NumberTreeNode::node(data, pdf, depth)
    }
}

} // verus!
