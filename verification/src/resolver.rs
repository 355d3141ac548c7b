//! The catalog of a document and what hangs from it: the page tree, the
//! data of pages, and their resources.

use vstd::prelude::*;
use vstd::string::StringSliceAdditionalSpecFns;
use crate::decimal::{Real, RealModel};
use crate::document::{Pdf, Document};
use crate::header::copy_bytes;
use crate::object::{PdfObject, PdfDictionary, Object, objects_model};
use crate::access::{bytes_eq, entry_as, filter_map};
use crate::types::{OptionalFrom, Rectangle, NumberTreeNode, reads_number_tree};
use crate::font::{field, Font};
use crate::parse::Definition;

verus! {

/// A set of procedures that a page may ask for.
#[derive(Debug, Clone, Copy, PartialEq, Eq, Structural)]
pub enum ProcSet {
    Pdf,
    Text,
    ImageB,
    ImageC,
    ImageI,
}

impl ProcSet {
    /// The procedure set that `name` names.
    pub open spec fn named(name: Seq<u8>) -> Option<ProcSet> {
        if name == "PDF".spec_bytes() {
            Some(ProcSet::Pdf)
        } else if name == "Text".spec_bytes() {
            Some(ProcSet::Text)
        } else if name == "ImageB".spec_bytes() {
            Some(ProcSet::ImageB)
        } else if name == "ImageC".spec_bytes() {
            Some(ProcSet::ImageC)
        } else if name == "ImageI".spec_bytes() {
            Some(ProcSet::ImageI)
        } else {
            None
        }
    }

    /// The procedure set that `data` names.
    pub fn from(data: &[u8]) -> (r: Option<ProcSet>)
        ensures
            r == Self::named(data@),
    {
        if bytes_eq(data, "PDF".as_bytes()) {
            Some(ProcSet::Pdf)
        } else if bytes_eq(data, "Text".as_bytes()) {
            Some(ProcSet::Text)
        } else if bytes_eq(data, "ImageB".as_bytes()) {
            Some(ProcSet::ImageB)
        } else if bytes_eq(data, "ImageC".as_bytes()) {
            Some(ProcSet::ImageC)
        } else if bytes_eq(data, "ImageI".as_bytes()) {
            Some(ProcSet::ImageI)
        } else {
            None
        }
    }
}

/// A key of the dictionary of an inline image.
#[derive(Debug, Clone, Copy, Hash, PartialEq, Eq, Structural)]
pub enum InlineImageKey {
    BitsPerComponent,
    ColorSpace,
    Decode,
    DecodeParams,
    Filter,
    Height,
    ImageMask,
    Intent,
    Interpolate,
    Width,
}

impl InlineImageKey {
    /// The key that `key` names, in full or by its abbreviation.
    pub open spec fn named(key: Seq<u8>) -> Option<InlineImageKey> {
        if key == "BitsPerComponent".spec_bytes() || key == "BPC".spec_bytes() {
            Some(InlineImageKey::BitsPerComponent)
        } else if key == "ColorSpace".spec_bytes() || key == "CS".spec_bytes() {
            Some(InlineImageKey::ColorSpace)
        } else if key == "Decode".spec_bytes() || key == "D".spec_bytes() {
            Some(InlineImageKey::Decode)
        } else if key == "DecodeParams".spec_bytes() || key == "DP".spec_bytes() {
            Some(InlineImageKey::DecodeParams)
        } else if key == "Filter".spec_bytes() || key == "F".spec_bytes() {
            Some(InlineImageKey::Filter)
        } else if key == "Height".spec_bytes() || key == "H".spec_bytes() {
            Some(InlineImageKey::Height)
        } else if key == "ImageMask".spec_bytes() || key == "IM".spec_bytes() {
            Some(InlineImageKey::ImageMask)
        } else if key == "Intent".spec_bytes() {
            Some(InlineImageKey::Intent)
        } else if key == "Interpolate".spec_bytes() || key == "I".spec_bytes() {
            Some(InlineImageKey::Interpolate)
        } else if key == "Width".spec_bytes() || key == "W".spec_bytes() {
            Some(InlineImageKey::Width)
        } else {
            None
        }
    }

    /// The key that `key` names, in full or by its abbreviation.
    pub fn from(key: &[u8]) -> (r: Option<InlineImageKey>)
        ensures
            r == Self::named(key@),
    {
        if bytes_eq(key, "BitsPerComponent".as_bytes()) || bytes_eq(key, "BPC".as_bytes()) {
            Some(InlineImageKey::BitsPerComponent)
        } else if bytes_eq(key, "ColorSpace".as_bytes()) || bytes_eq(key, "CS".as_bytes()) {
            Some(InlineImageKey::ColorSpace)
        } else if bytes_eq(key, "Decode".as_bytes()) || bytes_eq(key, "D".as_bytes()) {
            Some(InlineImageKey::Decode)
        } else if bytes_eq(key, "DecodeParams".as_bytes()) || bytes_eq(key, "DP".as_bytes()) {
            Some(InlineImageKey::DecodeParams)
        } else if bytes_eq(key, "Filter".as_bytes()) || bytes_eq(key, "F".as_bytes()) {
            Some(InlineImageKey::Filter)
        } else if bytes_eq(key, "Height".as_bytes()) || bytes_eq(key, "H".as_bytes()) {
            Some(InlineImageKey::Height)
        } else if bytes_eq(key, "ImageMask".as_bytes()) || bytes_eq(key, "IM".as_bytes()) {
            Some(InlineImageKey::ImageMask)
        } else if bytes_eq(key, "Intent".as_bytes()) {
            Some(InlineImageKey::Intent)
        } else if bytes_eq(key, "Interpolate".as_bytes()) || bytes_eq(key, "I".as_bytes()) {
            Some(InlineImageKey::Interpolate)
        } else if bytes_eq(key, "Width".as_bytes()) || bytes_eq(key, "W".as_bytes()) {
            Some(InlineImageKey::Width)
        } else {
            None
        }
    }
}

/// A device colour space.
#[derive(Debug, Clone, Copy, PartialEq, Eq, Structural)]
pub enum ColorSpace {
    Gray,
    RGB,
    CMYK,
}

impl ColorSpace {
    /// The colour space that `key` names, in full or by its abbreviation.
    pub open spec fn named(key: Seq<u8>) -> Option<ColorSpace> {
        if key == "DeviceGray".spec_bytes() || key == "G".spec_bytes() {
            Some(ColorSpace::Gray)
        } else if key == "DeviceRGB".spec_bytes() || key == "RGB".spec_bytes() {
            Some(ColorSpace::RGB)
        } else if key == "DeviceCMYK".spec_bytes() || key == "CMYK".spec_bytes() {
            Some(ColorSpace::CMYK)
        } else {
            None
        }
    }

    /// The colour space that `key` names, in full or by its abbreviation.
    pub fn from(key: &[u8]) -> (r: Option<ColorSpace>)
        ensures
            r == Self::named(key@),
    {
        if bytes_eq(key, "DeviceGray".as_bytes()) || bytes_eq(key, "G".as_bytes()) {
            Some(ColorSpace::Gray)
        } else if bytes_eq(key, "DeviceRGB".as_bytes()) || bytes_eq(key, "RGB".as_bytes()) {
            Some(ColorSpace::RGB)
        } else if bytes_eq(key, "DeviceCMYK".as_bytes()) || bytes_eq(key, "CMYK".as_bytes()) {
            Some(ColorSpace::CMYK)
        } else {
            None
        }
    }

    /// The number of components of a colour in the space.
    pub fn components(&self) -> (r: usize)
        ensures
            r == match self {
                ColorSpace::Gray => 1usize,
                ColorSpace::RGB => 3usize,
                ColorSpace::CMYK => 4usize,
            },
    {
        match self {
            ColorSpace::Gray => 1,
            ColorSpace::RGB => 3,
            ColorSpace::CMYK => 4,
        }
    }
}

/// The parameters of a graphics state.
#[derive(Debug, Clone, PartialEq)]
pub struct GraphicsState {
    pub line_width: Option<Real>,
    pub line_cap_style: Option<i64>,
    pub line_join_style: Option<i64>,
    pub miter_limit: Option<Real>,
    pub dash_array: Option<(Vec<u64>, u64)>,
    pub name: Option<Vec<u8>>,
    pub overprint: Option<bool>,
    pub non_stroking_overprint: Option<bool>,
    pub overprint_mode: Option<i64>,
}

/// The dash pattern that `d` gives under `D`: an array of two items, which
/// are the array of the dashes and the phase.
pub open spec fn spec_dash_array(d: Map<Seq<u8>, Object>) -> Option<(Seq<u64>, u64)> {
    match entry_as(d, "D".spec_bytes(), |o: Object| o.as_array()) {
        Some(items) => if items.len() == 2 {
            match (items[0].as_array(), items[1].as_unsigned()) {
                (Some(dashes), Some(phase)) => Some(
                    (filter_map(dashes, |o: Object| o.as_unsigned()), phase),
                ),
                _ => None,
            }
        } else {
            None
        },
        None => None,
    }
}

/// Whether `found` is the number `expected`.
pub open spec fn same_number(found: Option<Real>, expected: Option<RealModel>) -> bool {
    match expected {
        Some(x) => found is Some && found->Some_0@ == x,
        None => found is None,
    }
}

impl GraphicsState {
    /// The graphics state that the dictionary `data` describes: each
    /// parameter is what the dictionary holds under its key, where that is of
    /// the kind of the parameter.
    pub fn from(data: &PdfDictionary) -> (r: GraphicsState)
        ensures
            same_number(r.line_width, entry_as(data@, "LW".spec_bytes(), |o: Object| o.as_float())),
            r.line_cap_style == entry_as(data@, "LC".spec_bytes(), |o: Object| o.as_integer()),
            r.line_join_style == entry_as(data@, "LJ".spec_bytes(), |o: Object| o.as_integer()),
            same_number(r.miter_limit, entry_as(data@, "ML".spec_bytes(), |o: Object| o.as_float())),
            match spec_dash_array(data@) {
                Some((dashes, phase)) => r.dash_array is Some && r.dash_array->Some_0.0@ == dashes
                    && r.dash_array->Some_0.1 == phase,
                None => r.dash_array is None,
            },
            match entry_as(data@, "RI".spec_bytes(), |o: Object| o.as_identifier()) {
                Some(name) => r.name is Some && r.name->Some_0@ == name,
                None => r.name is None,
            },
            r.overprint == entry_as(data@, "OP".spec_bytes(), |o: Object| o.as_boolean()),
            r.non_stroking_overprint == entry_as(
                data@,
                "op".spec_bytes(),
                |o: Object| o.as_boolean(),
            ),
            r.overprint_mode == entry_as(data@, "OPM".spec_bytes(), |o: Object| o.as_integer()),
    {
        let dash_array: Option<(Vec<u64>, u64)> = match data.array("D") {
            None => None,
            Some(da) => {
                if da.len() != 2 {
                    None
                } else {
                    assert(objects_model(da@)[0] == da@[0]@ && objects_model(da@)[1] == da@[1]@);
                    match (da[0].as_unsigned_array(), da[1].as_unsigned()) {
                        (Some(dashes), Some(phase)) => Some((dashes, phase)),
                        _ => None,
                    }
                }
            },
        };
        let name: Option<Vec<u8>> = match data.identifier("RI") {
            Some(n) => Some(copy_bytes(n.as_slice())),
            None => None,
        };
        GraphicsState {
            line_width: data.float("LW"),
            line_cap_style: data.integer("LC"),
            line_join_style: data.integer("LJ"),
            miter_limit: data.float("ML"),
            dash_array,
            name,
            overprint: data.boolean("OP"),
            non_stroking_overprint: data.boolean("op"),
            overprint_mode: data.integer("OPM"),
        }
    }
}

/// A graphics state under its name.
#[derive(Debug, Clone, PartialEq)]
pub struct NamedState {
    pub name: Vec<u8>,
    pub state: GraphicsState,
}

/// The resources of a page.
#[derive(Debug, Clone, PartialEq)]
pub struct Resources {
    pub proc_set: Vec<ProcSet>,
    pub graphics_state: Option<Vec<NamedState>>,
}

/// The procedure sets that the names `names` name, in their order.
pub open spec fn proc_sets(names: Seq<Seq<u8>>) -> Seq<ProcSet>
    decreases names.len(),
{
    if names.len() == 0 {
        Seq::empty()
    } else {
        match ProcSet::named(names.last()) {
            Some(p) => proc_sets(names.drop_last()).push(p),
            None => proc_sets(names.drop_last()),
        }
    }
}

/// The procedure sets that a dictionary of resources gives under `ProcSet`.
pub open spec fn spec_proc_set(d: Map<Seq<u8>, Object>) -> Option<Seq<ProcSet>> {
    match entry_as(d, "ProcSet".spec_bytes(), |o: Object| o.as_array()) {
        Some(items) => Some(proc_sets(filter_map(items, |o: Object| o.as_identifier()))),
        None => None,
    }
}

impl Resources {
    /// The resources that the dictionary `data` describes; none where it
    /// has no array under `ProcSet`. The graphics states are those under
    /// `ExtGState` that are dictionaries or lead to one.
    pub fn from(data: &PdfDictionary, pdf: &mut Pdf) -> (r: Option<Resources>)
        requires
            old(pdf).well_formed(),
        ensures
            final(pdf).well_formed(),
            old(pdf)@.resolved_to(final(pdf)@),
            match spec_proc_set(data@) {
                Some(sets) => r is Some && r->Some_0.proc_set@ == sets,
                None => r is None,
            },
            r matches Some(found) ==> (found.graphics_state is Some <==> old(pdf)@.entry_dictionary(
                data@,
                "ExtGState".spec_bytes(),
            ) is Some),
    {
        let names: Vec<Vec<u8>> = match data.identifier_array("ProcSet") {
            Some(v) => v,
            None => {
                return None;
            },
        };
        let ghost all = Seq::new(names@.len(), |i: int| names@[i]@);
        let mut proc_set: Vec<ProcSet> = Vec::new();
        let mut i: usize = 0;
        assert(all.take(0) =~= Seq::<Seq<u8>>::empty());
        while i < names.len()
            invariant
                i <= names@.len(),
                all == Seq::new(names@.len(), |k: int| names@[k]@),
                proc_set@ == proc_sets(all.take(i as int)),
            decreases names@.len() - i,
        {
            proof {
                assert(all.take(i + 1).drop_last() =~= all.take(i as int));
                assert(all.take(i + 1).last() == names@[i as int]@);
            }
            match ProcSet::from(names[i].as_slice()) {
                Some(p) => {
                    proc_set.push(p);
                },
                None => {},
            }
            i = i + 1;
        }
        assert(all.take(i as int) =~= all);
        let ghost start = pdf@;
        let graphics_state: Option<Vec<NamedState>> = match data.dictionary("ExtGState", pdf) {
            None => None,
            Some(gs) => {
                let mut states: Vec<NamedState> = Vec::new();
                let mut k: usize = 0;
                while k < gs.data.len()
                    invariant
                        k <= gs.data@.len(),
                        pdf.well_formed(),
                        start == old(pdf)@,
                        start.resolved_to(pdf@),
                    decreases gs.data@.len() - k,
                {
                    match gs.data[k].value.as_dictionary(pdf) {
                        Some(d) => {
                            states.push(
                                NamedState {
                                    name: copy_bytes(gs.data[k].key.as_slice()),
                                    state: GraphicsState::from(&d),
                                },
                            );
                        },
                        None => {},
                    }
                    k = k + 1;
                }
                Some(states)
            },
        };
        Some(Resources { proc_set, graphics_state })
    }
}

/// What a page says of itself.
#[derive(Debug, Clone, PartialEq)]
pub struct PageData {
    pub media_box: Option<Rectangle>,
    pub resources: Option<Resources>,
}

/// Whether `value` is what the dictionary `d` of resources reads as: none
/// where it has no array under `ProcSet`; else resources with the procedure
/// sets that the array names, and with graphics states where `d` holds or
/// leads to a dictionary under `ExtGState`.
pub open spec fn reads_resources(
    d: Map<Seq<u8>, Object>,
    document: Document,
    value: Option<Resources>,
) -> bool {
    match spec_proc_set(d) {
        Some(sets) => value is Some && value->Some_0.proc_set@ == sets && (
        value->Some_0.graphics_state is Some <==> document.entry_dictionary(
            d,
            "ExtGState".spec_bytes(),
        ) is Some),
        None => value is None,
    }
}

/// Whether `page` is the data of the page that the dictionary `d`
/// describes: its media box is what `d` holds under `MediaBox`, read as a
/// rectangle, and its resources are what the dictionary reads as that `d`
/// holds or leads to under `Resources`.
pub open spec fn reads_page(d: Map<Seq<u8>, Object>, document: Document, page: PageData) -> bool {
    &&& d.contains_key("MediaBox".spec_bytes()) ==> Rectangle::reads(
        d["MediaBox".spec_bytes()],
        document,
        page.media_box,
    )
    &&& !d.contains_key("MediaBox".spec_bytes()) ==> page.media_box is None
    &&& match document.entry_dictionary(d, "Resources".spec_bytes()) {
        Some(resources) => reads_resources(resources, document, page.resources),
        None => page.resources is None,
    }
}

impl PageData {
    /// The data of the page that the dictionary `data` describes: its media
    /// box, where it holds one, and its resources, where it holds or leads
    /// to a dictionary of them that can be read.
    pub fn from(data: &PdfDictionary, pdf: &mut Pdf) -> (r: Option<PageData>)
        requires
            old(pdf).well_formed(),
        ensures
            final(pdf).well_formed(),
            old(pdf)@.resolved_to(final(pdf)@),
            r is Some,
            reads_page(data@, old(pdf)@, r->Some_0),
    {
        let media_box = field::<Rectangle>(data, "MediaBox", pdf);
        let resources = match data.dictionary("Resources", pdf) {
            Some(d) => Resources::from(&d, pdf),
            None => None,
        };
        Some(PageData { media_box, resources })
    }
}

/// A node of the page tree: the data of the page or of the pages below it,
/// and the nodes below it.
#[derive(Debug, PartialEq)]
pub struct PageTreeNode {
    pub kids: Vec<PageTreeNode>,
    pub data: PageData,
}

/// The page tree of a document: its nodes, and the number of its pages as
/// it states it.
#[derive(Debug, PartialEq)]
pub struct PageTree {
    pub kids: Vec<PageTreeNode>,
    pub count: usize,
}

/// The dictionaries of the nodes below the node that `d` describes, as
/// far as they are read at the depth `depth`: those that the references
/// under `Kids` lead to; none at the depth 0, where there is no array under
/// `Kids`, or where one of its references leads to no dictionary.
pub open spec fn below(d: Map<Seq<u8>, Object>, document: Document, depth: nat) -> Option<
    Seq<Map<Seq<u8>, Object>>,
> {
    if depth == 0 {
        None
    } else {
        document.reference_dictionaries(d, "Kids".spec_bytes())
    }
}

/// Whether `node` is the node of the page tree that the dictionary `d`
/// describes, read down to the depth `depth`: its data are those of `d`,
/// and the nodes below it are those of the dictionaries below `d`, one for
/// each and in their order, each read down to the depth below; it has none
/// where there are no dictionaries below `d`.
pub open spec fn reads_node(
    d: Map<Seq<u8>, Object>,
    document: Document,
    depth: nat,
    node: PageTreeNode,
) -> bool
    decreases depth,
{
    &&& reads_page(d, document, node.data)
    &&& if depth == 0 {
        node.kids@.len() == 0
    } else {
        match document.reference_dictionaries(d, "Kids".spec_bytes()) {
            Some(all) => node.kids@.len() == all.len() && forall|i: int|
                0 <= i < all.len() ==> reads_node(
                    all[i],
                    document,
                    (depth - 1) as nat,
                    #[trigger] node.kids@[i],
                ),
            None => node.kids@.len() == 0,
        }
    }
}

/// Whether `nodes` are the nodes of the dictionaries `all`, one for each
/// and in their order, each read down to the depth `depth`.
pub open spec fn reads_nodes(
    all: Seq<Map<Seq<u8>, Object>>,
    document: Document,
    depth: nat,
    nodes: Seq<PageTreeNode>,
) -> bool {
    nodes.len() == all.len() && forall|i: int|
        0 <= i < all.len() ==> reads_node(all[i], document, depth, #[trigger] nodes[i])
}

/// The number of pages that the root of a page tree states under `Count`:
/// an integer above zero that the machine can hold.
pub open spec fn page_count(d: Map<Seq<u8>, Object>) -> Option<usize> {
    match entry_as(d, "Count".spec_bytes(), |o: Object| o.as_unsigned()) {
        Some(count) => if count <= usize::MAX {
            Some(count as usize)
        } else {
            None
        },
        None => None,
    }
}

/// Whether `value` is what the dictionary `d` of the root of a page tree
/// reads as: none where no nodes are read below it or it states no count
/// of pages; else the tree of those nodes, each read down to the depth that
/// the number of entries of the cross-reference map allows, with that
/// count.
pub open spec fn reads_tree(d: Map<Seq<u8>, Object>, document: Document, value: Option<PageTree>) -> bool {
    match (below(d, document, document.xref.len()), page_count(d)) {
        (Some(all), Some(count)) => value is Some && value->Some_0.count == count && reads_nodes(
            all,
            document,
            (document.xref.len() - 1) as nat,
            value->Some_0.kids@,
        ),
        _ => value is None,
    }
}

impl PageTree {
    /// The nodes that the references under `Kids` in `data` lead to, each
    /// with the nodes below it down to the depth `depth`; none where there
    /// is no array under `Kids`, where one of its references leads to no
    /// dictionary, or where the depth is 0.
    pub fn kids(data: &PdfDictionary, pdf: &mut Pdf, depth: usize) -> (r: Option<Vec<PageTreeNode>>)
        requires
            old(pdf).well_formed(),
        ensures
            final(pdf).well_formed(),
            old(pdf)@.resolved_to(final(pdf)@),
            match below(data@, old(pdf)@, depth as nat) {
                Some(all) => r is Some && reads_nodes(
                    all,
                    old(pdf)@,
                    (depth - 1) as nat,
                    r->Some_0@,
                ),
                None => r is None,
            },
        decreases depth, 1nat,
    {
        let ghost start = pdf@;
        let found: Vec<PdfDictionary> = match data.map_reference_array("Kids", pdf) {
            Some(v) => v,
            None => {
                return None;
            },
        };
        if depth == 0 {
            return None;
        }
        let ghost all = Seq::new(found@.len(), |i: int| found@[i]@);
        let mut nodes: Vec<PageTreeNode> = Vec::new();
        let mut i: usize = 0;
        while i < found.len()
            invariant
                i <= found@.len(),
                nodes@.len() == i,
                depth > 0,
                pdf.well_formed(),
                start == old(pdf)@,
                start.resolved_to(pdf@),
                all == Seq::new(found@.len(), |k: int| found@[k]@),
                forall|k: int|
                    0 <= k < i ==> reads_node(all[k], start, (depth - 1) as nat, #[trigger] nodes@[k]),
            decreases found@.len() - i,
        {
            let ghost before = nodes@;
            let ghost here = pdf@;
            match PageTree::kid(&found[i], pdf, depth - 1) {
                Some(node) => {
                    proof {
                        lemma_node_of_same_document(all[i as int], here, start, (depth - 1) as nat, node);
                    }
                    nodes.push(node);
                    assert(forall|k: int| 0 <= k < i ==> nodes@[k] == before[k]);
                },
                None => {
                    return None;
                },
            }
            i = i + 1;
        }
        Some(nodes)
    }

    /// The node that the dictionary `data` describes, with the nodes below
    /// it down to the depth `depth`. A node without nodes below it that can
    /// be read has none.
    pub fn kid(data: &PdfDictionary, pdf: &mut Pdf, depth: usize) -> (r: Option<PageTreeNode>)
        requires
            old(pdf).well_formed(),
        ensures
            final(pdf).well_formed(),
            old(pdf)@.resolved_to(final(pdf)@),
            r is Some,
            reads_node(data@, old(pdf)@, depth as nat, r->Some_0),
        decreases depth, 2nat,
    {
        let ghost start = pdf@;
        let kids: Vec<PageTreeNode> = match PageTree::kids(data, pdf, depth) {
            Some(nodes) => nodes,
            None => Vec::new(),
        };
        let ghost here = pdf@;
        match PageData::from(data, pdf) {
            Some(page) => {
                proof {
                    lemma_page_of_same_document(data@, here, start, page);
                }
                Some(PageTreeNode { kids, data: page })
            },
            None => None,
        }
    }

    /// The page tree whose root the dictionary `data` describes; none where
    /// it has no nodes that can be read, or no count of pages above zero.
    pub fn from(data: &PdfDictionary, pdf: &mut Pdf) -> (r: Option<PageTree>)
        requires
            old(pdf).well_formed(),
        ensures
            final(pdf).well_formed(),
            old(pdf)@.resolved_to(final(pdf)@),
            reads_tree(data@, old(pdf)@, r),
    {
        let depth: usize = pdf.xref().len();
        let kids: Vec<PageTreeNode> = match PageTree::kids(data, pdf, depth) {
            Some(nodes) => nodes,
            None => {
                return None;
            },
        };
        let count: u64 = match data.unsigned("Count") {
            Some(c) => c,
            None => {
                return None;
            },
        };
        if count > usize::MAX as u64 {
            return None;
        }
        Some(PageTree { kids, count: count as usize })
    }
}

/// The data of a page are read alike in a document and in the same
/// document after some resolutions.
pub proof fn lemma_page_of_same_document(
    d: Map<Seq<u8>, Object>,
    one: Document,
    other: Document,
    page: PageData,
)
    requires
        one.xref == other.xref,
        one.data == other.data,
        reads_page(d, one, page),
    ensures
        reads_page(d, other, page),
{
    lemma_rectangle_of_same_document(one, other);
}

/// A rectangle is read alike in whatever document.
pub proof fn lemma_rectangle_of_same_document(one: Document, other: Document)
    ensures
        forall|o: Object, value: Option<Rectangle>| #[trigger]
            Rectangle::reads(o, one, value) == Rectangle::reads(o, other, value),
{
}

/// A node is read alike in a document and in the same document after some
/// resolutions.
pub proof fn lemma_node_of_same_document(
    d: Map<Seq<u8>, Object>,
    one: Document,
    other: Document,
    depth: nat,
    node: PageTreeNode,
)
    requires
        one.xref == other.xref,
        one.data == other.data,
        reads_node(d, one, depth, node),
    ensures
        reads_node(d, other, depth, node),
    decreases depth,
{
    lemma_page_of_same_document(d, one, other, node.data);
    if depth > 0 {
        match one.reference_dictionaries(d, "Kids".spec_bytes()) {
            Some(all) => {
                assert forall|i: int| 0 <= i < all.len() implies reads_node(
                    all[i],
                    other,
                    (depth - 1) as nat,
                    #[trigger] node.kids@[i],
                ) by {
                    lemma_node_of_same_document(
                        all[i],
                        one,
                        other,
                        (depth - 1) as nat,
                        node.kids@[i],
                    );
                }
            },
            None => {},
        }
    }
}

/// The catalog of a document: its page tree and, where it has them, its page
/// labels.
#[derive(Debug)]
pub struct Catalog {
    pub page_tree: PageTree,
    pub page_labels: Option<NumberTreeNode>,
}

/// Whether `labels` are the page labels that the dictionary `metadata` of
/// a catalog gives: what the dictionary reads as, as the root of a number
/// tree, that `metadata` holds or leads to under `PageLabels`; none where
/// there is no such dictionary.
pub open spec fn reads_labels(
    metadata: Map<Seq<u8>, Object>,
    document: Document,
    labels: Option<NumberTreeNode>,
) -> bool {
    match document.entry_dictionary(metadata, "PageLabels".spec_bytes()) {
        Some(d) => reads_number_tree(d, labels),
        None => labels is None,
    }
}

/// Whether `value` is what the dictionary `metadata` of a catalog reads as:
/// none where it holds or leads to no dictionary under `Pages`, or where
/// that dictionary reads as no page tree; else the catalog with that page
/// tree and with the page labels that `metadata` gives.
pub open spec fn reads_catalog(
    metadata: Map<Seq<u8>, Object>,
    document: Document,
    value: Option<Catalog>,
) -> bool {
    match document.entry_dictionary(metadata, "Pages".spec_bytes()) {
        Some(pages) => match value {
            Some(catalog) => reads_tree(pages, document, Some(catalog.page_tree)) && reads_labels(
                metadata,
                document,
                catalog.page_labels,
            ),
            None => reads_tree(pages, document, None),
        },
        None => value is None,
    }
}

/// A page tree is read alike in a document and in the same document after
/// some resolutions.
pub proof fn lemma_tree_of_same_document(
    d: Map<Seq<u8>, Object>,
    one: Document,
    other: Document,
    value: Option<PageTree>,
)
    requires
        one.xref == other.xref,
        one.data == other.data,
        reads_tree(d, one, value),
    ensures
        reads_tree(d, other, value),
{
    match (below(d, one, one.xref.len()), page_count(d)) {
        (Some(all), Some(count)) => {
            let depth = (one.xref.len() - 1) as nat;
            let nodes = value->Some_0.kids@;
            assert forall|i: int| 0 <= i < all.len() implies reads_node(
                all[i],
                other,
                depth,
                #[trigger] nodes[i],
            ) by {
                lemma_node_of_same_document(all[i], one, other, depth, nodes[i]);
            }
        },
        _ => {},
    }
}

/// A catalog is read alike in a document and in the same document after
/// some resolutions.
pub proof fn lemma_catalog_of_same_document(
    metadata: Map<Seq<u8>, Object>,
    one: Document,
    other: Document,
    value: Option<Catalog>,
)
    requires
        one.xref == other.xref,
        one.data == other.data,
        reads_catalog(metadata, one, value),
    ensures
        reads_catalog(metadata, other, value),
{
    match one.entry_dictionary(metadata, "Pages".spec_bytes()) {
        Some(pages) => match value {
            Some(catalog) => {
                lemma_tree_of_same_document(pages, one, other, Some(catalog.page_tree));
            },
            None => {
                lemma_tree_of_same_document(pages, one, other, None);
            },
        },
        None => {},
    }
}

impl Catalog {
    /// The catalog that the dictionary `metadata` describes; none where it
    /// holds or leads to no page tree that can be read.
    pub fn from(metadata: &PdfDictionary, pdf: &mut Pdf) -> (r: Option<Catalog>)
        requires
            old(pdf).well_formed(),
        ensures
            final(pdf).well_formed(),
            old(pdf)@.resolved_to(final(pdf)@),
            reads_catalog(metadata@, old(pdf)@, r),
    {
        let ghost start = pdf@;
        let pages: PdfDictionary = match metadata.dictionary("Pages", pdf) {
            Some(pt) => pt,
            None => {
                return None;
            },
        };
        let ghost here = pdf@;
        let page_tree: PageTree = match PageTree::from(&pages, pdf) {
            Some(tree) => {
                proof {
                    lemma_tree_of_same_document(pages@, here, start, Some(tree));
                }
                tree
            },
            None => {
                proof {
                    lemma_tree_of_same_document(pages@, here, start, None);
                }
                return None;
            },
        };
        let page_labels: Option<NumberTreeNode> = match metadata.dictionary("PageLabels", pdf) {
            Some(pl) => NumberTreeNode::from(&pl, pdf),
            None => None,
        };
        Some(Catalog { page_tree, page_labels })
    }
}

/// Whether the dictionary `d` says that it is of the type `name`.
pub fn is_of_type(d: &PdfDictionary, name: &str) -> (r: bool)
    ensures
        r == (entry_as(d@, "Type".spec_bytes(), |o: Object| o.as_identifier()) == Some(
            name.spec_bytes(),
        )),
{
    match d.identifier("Type") {
        Some(found) => bytes_eq(found.as_slice(), name.as_bytes()),
        None => false,
    }
}

/// What the objects of a document read as: its catalog, where it has one,
/// and its fonts.
#[derive(Debug)]
pub struct Resolved {
    pub catalog: Option<Catalog>,
    pub fonts: Vec<Font>,
}

/// The dictionary of the type `name` that `o` is or leads to through
/// references.
pub open spec fn typed_dictionary(o: Object, document: Document, name: Seq<u8>) -> Option<
    Map<Seq<u8>, Object>,
> {
    match document.dictionary_of(o) {
        Some(d) => if entry_as(d, "Type".spec_bytes(), |o: Object| o.as_identifier()) == Some(
            name,
        ) {
            Some(d)
        } else {
            None
        },
        None => None,
    }
}

/// Whether `o` is or leads to a dictionary of the type `Catalog` that
/// reads as no catalog.
pub open spec fn unreadable_catalog(o: Object, document: Document) -> bool {
    match typed_dictionary(o, document, "Catalog".spec_bytes()) {
        Some(d) => reads_catalog(d, document, None),
        None => false,
    }
}

/// Whether one of `objects` is or leads to a dictionary of the type
/// `Catalog` that reads as no catalog.
pub open spec fn has_unreadable_catalog(objects: Seq<Object>, document: Document) -> bool {
    exists|i: int| 0 <= i < objects.len() && unreadable_catalog(#[trigger] objects[i], document)
}

/// Whether `catalog` is the catalog of `objects`: what the last of them
/// reads as that is or leads to a dictionary of the type `Catalog`; none
/// where none of them does.
pub open spec fn catalog_of(objects: Seq<Object>, document: Document, catalog: Option<Catalog>) -> bool
    decreases objects.len(),
{
    if objects.len() == 0 {
        catalog is None
    } else {
        match typed_dictionary(objects.last(), document, "Catalog".spec_bytes()) {
            Some(d) => catalog is Some && reads_catalog(d, document, catalog),
            None => catalog_of(objects.drop_last(), document, catalog),
        }
    }
}

/// Whether `o` is or leads to a dictionary of the type `Font`, and reads
/// as a font.
pub open spec fn is_font(o: Object, document: Document) -> bool {
    typed_dictionary(o, document, "Catalog".spec_bytes()) is None && typed_dictionary(
        o,
        document,
        "Font".spec_bytes(),
    ) is Some && !Font::reads(o, document, None)
}

/// Whether `fonts` are the fonts of `objects`: one for each of them that is
/// a font, in their order, and each what that object reads as.
pub open spec fn fonts_of(objects: Seq<Object>, document: Document, fonts: Seq<Font>) -> bool
    decreases objects.len(),
{
    if objects.len() == 0 {
        fonts.len() == 0
    } else if is_font(objects.last(), document) {
        fonts.len() > 0 && Font::reads(objects.last(), document, Some(fonts.last())) && fonts_of(
            objects.drop_last(),
            document,
            fonts.drop_last(),
        )
    } else {
        fonts_of(objects.drop_last(), document, fonts)
    }
}

/// Whether `value` is what `objects` read as, taken in their order: none
/// where one of them is a catalog that cannot be read; else their catalog
/// and their fonts.
pub open spec fn resolved(objects: Seq<Object>, document: Document, value: Option<Resolved>) -> bool {
    match value {
        None => has_unreadable_catalog(objects, document),
        Some(found) => !has_unreadable_catalog(objects, document) && catalog_of(
            objects,
            document,
            found.catalog,
        ) && fonts_of(objects, document, found.fonts@),
    }
}

/// The objects of the definitions `all`, as their models.
pub open spec fn models_of(all: Seq<Definition>) -> Seq<Object> {
    Seq::new(all.len(), |i: int| all[i].object@)
}

/// A font is read alike in a document and in the same document after some
/// resolutions.
pub proof fn lemma_font_of_same_document(o: Object, one: Document, other: Document, value: Option<Font>)
    requires
        one.xref == other.xref,
        one.data == other.data,
    ensures
        Font::reads(o, one, value) == Font::reads(o, other, value),
{
}

/// Objects read alike in a document and in the same document after some
/// resolutions.
pub proof fn lemma_resolved_of_same_document(
    objects: Seq<Object>,
    one: Document,
    other: Document,
    value: Option<Resolved>,
)
    requires
        one.xref == other.xref,
        one.data == other.data,
        resolved(objects, one, value),
    ensures
        resolved(objects, other, value),
{
    lemma_unreadable_of_same_document(objects, one, other);
    lemma_unreadable_of_same_document(objects, other, one);
    match value {
        Some(found) => {
            lemma_catalog_of_objects(objects, one, other, found.catalog);
            lemma_fonts_of_objects(objects, one, other, found.fonts@);
        },
        None => {},
    }
}

/// A catalog that cannot be read in a document cannot be read in the same
/// document after some resolutions.
pub proof fn lemma_unreadable_of_same_document(objects: Seq<Object>, one: Document, other: Document)
    requires
        one.xref == other.xref,
        one.data == other.data,
    ensures
        has_unreadable_catalog(objects, one) ==> has_unreadable_catalog(objects, other),
{
    if has_unreadable_catalog(objects, one) {
        let i = choose|i: int| 0 <= i < objects.len() && unreadable_catalog(#[trigger] objects[i], one);
        let d = typed_dictionary(objects[i], one, "Catalog".spec_bytes())->Some_0;
        lemma_catalog_of_same_document(d, one, other, None);
        assert(unreadable_catalog(objects[i], other));
    }
}

/// The catalog of objects is the same in a document and in the same
/// document after some resolutions.
pub proof fn lemma_catalog_of_objects(
    objects: Seq<Object>,
    one: Document,
    other: Document,
    catalog: Option<Catalog>,
)
    requires
        one.xref == other.xref,
        one.data == other.data,
        catalog_of(objects, one, catalog),
    ensures
        catalog_of(objects, other, catalog),
    decreases objects.len(),
{
    if objects.len() > 0 {
        match typed_dictionary(objects.last(), one, "Catalog".spec_bytes()) {
            Some(d) => {
                lemma_catalog_of_same_document(d, one, other, catalog);
            },
            None => {
                lemma_catalog_of_objects(objects.drop_last(), one, other, catalog);
            },
        }
    }
}

/// The fonts of objects are the same in a document and in the same
/// document after some resolutions.
pub proof fn lemma_fonts_of_objects(
    objects: Seq<Object>,
    one: Document,
    other: Document,
    fonts: Seq<Font>,
)
    requires
        one.xref == other.xref,
        one.data == other.data,
        fonts_of(objects, one, fonts),
    ensures
        fonts_of(objects, other, fonts),
    decreases objects.len(),
{
    if objects.len() > 0 {
        lemma_font_of_same_document(objects.last(), one, other, None);
        if is_font(objects.last(), one) {
            lemma_font_of_same_document(objects.last(), one, other, Some(fonts.last()));
            lemma_fonts_of_objects(objects.drop_last(), one, other, fonts.drop_last());
        } else {
            lemma_fonts_of_objects(objects.drop_last(), one, other, fonts);
        }
    }
}

/// Reads the catalog and the fonts among `objects`, in their order: reads
/// those that are, or lead to, dictionaries of the type `Catalog` or
/// `Font`. None where a dictionary of the type `Catalog` cannot be read as
/// a catalog. Of several catalogs the last counts.
pub fn resolve_objects(objects: &Vec<Definition>, pdf: &mut Pdf) -> (r: Option<Resolved>)
    requires
        old(pdf).well_formed(),
    ensures
        final(pdf).well_formed(),
        old(pdf)@.resolved_to(final(pdf)@),
        resolved(models_of(objects@), old(pdf)@, r),
{
    let ghost start = pdf@;
    let ghost all = models_of(objects@);
    let mut catalog: Option<Catalog> = None;
    let mut fonts: Vec<Font> = Vec::new();
    let mut i: usize = 0;
    assert(all.take(0) =~= Seq::<Object>::empty());
    while i < objects.len()
        invariant
            i <= objects@.len(),
            pdf.well_formed(),
            start == old(pdf)@,
            start.resolved_to(pdf@),
            all == models_of(objects@),
            !has_unreadable_catalog(all.take(i as int), start),
            catalog_of(all.take(i as int), start, catalog),
            fonts_of(all.take(i as int), start, fonts@),
        decreases objects@.len() - i,
    {
        let ghost o = objects@[i as int].object@;
        let ghost before = all.take(i as int);
        let ghost after = all.take(i + 1);
        let ghost found = fonts@;
        proof {
            assert(after.drop_last() =~= before);
            assert(after.last() == o);
            assert(all[i as int] == o);
        }
        match objects[i].object.as_dictionary(pdf) {
            None => {},
            Some(dictionary) => {
                if is_of_type(&dictionary, "Catalog") {
                    let ghost here = pdf@;
                    match Catalog::from(&dictionary, pdf) {
                        Some(read) => {
                            proof {
                                lemma_catalog_of_same_document(dictionary@, here, start, Some(read));
                                assert(!reads_catalog(dictionary@, start, None));
                            }
                            catalog = Some(read);
                        },
                        None => {
                            proof {
                                lemma_catalog_of_same_document(dictionary@, here, start, None);
                                assert(unreadable_catalog(all[i as int], start));
                            }
                            return None;
                        },
                    }
                } else if is_of_type(&dictionary, "Font") {
                    let ghost here = pdf@;
                    match <Font as OptionalFrom>::from(&objects[i].object, pdf) {
                        Some(font) => {
                            proof {
                                lemma_font_of_same_document(o, here, start, Some(font));
                            }
                            fonts.push(font);
                            assert(fonts@.drop_last() =~= found);
                        },
                        None => {
                            proof {
                                lemma_font_of_same_document(o, here, start, None);
                            }
                        },
                    }
                }
            },
        }
        proof {
            lemma_one_more_object(before, o, start);
        }
        i = i + 1;
    }
    assert(all.take(i as int) =~= all);
    Some(Resolved { catalog, fonts })
}

/// One more object that is no catalog that cannot be read adds no such
/// catalog.
pub proof fn lemma_one_more_object(objects: Seq<Object>, o: Object, document: Document)
    requires
        !has_unreadable_catalog(objects, document),
        !unreadable_catalog(o, document),
    ensures
        !has_unreadable_catalog(objects.push(o), document),
{
    let longer = objects.push(o);
    if has_unreadable_catalog(longer, document) {
        let i = choose|i: int| 0 <= i < longer.len() && unreadable_catalog(#[trigger] longer[i], document);
        if i < objects.len() {
            assert(unreadable_catalog(objects[i], document));
        }
    }
}

/// Reads the catalog and the fonts of a document: goes through the objects
/// that are in use, in whatever order the cross-reference map gives them,
/// and reads those that are, or lead to, dictionaries of the
/// type `Catalog` or `Font`. None where a dictionary of the type `Catalog`
/// cannot be read as a catalog. Of several catalogs the one that is met
/// last counts.
pub fn resolve_pdf(pdf: &mut Pdf) -> (r: Option<Resolved>)
    requires
        old(pdf).well_formed(),
    ensures
        final(pdf).well_formed(),
        old(pdf)@.resolved_to(final(pdf)@),
        exists|all: Seq<Definition>| #[trigger]
            old(pdf)@.lists(all) && resolved(models_of(all), old(pdf)@, r),
{
    let ghost start = pdf@;
    let objects: Vec<Definition> = pdf.objects();
    let ghost here = pdf@;
    let found = resolve_objects(&objects, pdf);
    proof {
        lemma_resolved_of_same_document(models_of(objects@), here, start, found);
        assert(start.lists(objects@));
    }
    found
}

} // verus!
