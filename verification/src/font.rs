//! Fonts, as their dictionaries describe them.

use vstd::prelude::*;
use vstd::string::StringSliceAdditionalSpecFns;
use crate::decimal::Real;
use crate::document::{Pdf, Document};
use crate::object::{PdfObject, PdfDictionary, Object};
use crate::access::bytes_eq;
use crate::types::{OptionalFrom, Rectangle};

verus! {

/// How wide the glyphs of a font are set.
#[derive(Debug, Clone, Copy, PartialEq, Eq, Structural)]
pub enum FontStretch {
    UltraCondensed,
    ExtraCondensed,
    Condensed,
    SemiCondensed,
    Normal,
    SemiExpanded,
    Expanded,
    ExtraExpanded,
    UltraExpanded,
}

impl FontStretch {
    /// The stretch that `name` names.
    pub open spec fn named(name: Seq<u8>) -> Option<FontStretch> {
        if name == "UltraCondensed".spec_bytes() {
            Some(FontStretch::UltraCondensed)
        } else if name == "ExtraCondensed".spec_bytes() {
            Some(FontStretch::ExtraCondensed)
        } else if name == "Condensed".spec_bytes() {
            Some(FontStretch::Condensed)
        } else if name == "SemiCondensed".spec_bytes() {
            Some(FontStretch::SemiCondensed)
        } else if name == "Normal".spec_bytes() {
            Some(FontStretch::Normal)
        } else if name == "SemiExpanded".spec_bytes() {
            Some(FontStretch::SemiExpanded)
        } else if name == "Expanded".spec_bytes() {
            Some(FontStretch::Expanded)
        } else if name == "ExtraExpanded".spec_bytes() {
            Some(FontStretch::ExtraExpanded)
        } else if name == "UltraExpanded".spec_bytes() {
            Some(FontStretch::UltraExpanded)
        } else {
            None
        }
    }

    /// The stretch that `name` names.
    pub fn from_name(name: &[u8]) -> (r: Option<FontStretch>)
        ensures
            r == Self::named(name@),
    {
        if bytes_eq(name, "UltraCondensed".as_bytes()) {
            Some(FontStretch::UltraCondensed)
        } else if bytes_eq(name, "ExtraCondensed".as_bytes()) {
            Some(FontStretch::ExtraCondensed)
        } else if bytes_eq(name, "Condensed".as_bytes()) {
            Some(FontStretch::Condensed)
        } else if bytes_eq(name, "SemiCondensed".as_bytes()) {
            Some(FontStretch::SemiCondensed)
        } else if bytes_eq(name, "Normal".as_bytes()) {
            Some(FontStretch::Normal)
        } else if bytes_eq(name, "SemiExpanded".as_bytes()) {
            Some(FontStretch::SemiExpanded)
        } else if bytes_eq(name, "Expanded".as_bytes()) {
            Some(FontStretch::Expanded)
        } else if bytes_eq(name, "ExtraExpanded".as_bytes()) {
            Some(FontStretch::ExtraExpanded)
        } else if bytes_eq(name, "UltraExpanded".as_bytes()) {
            Some(FontStretch::UltraExpanded)
        } else {
            None
        }
    }
}

impl OptionalFrom for FontStretch {
    open spec fn reads(obj: Object, document: Document, value: Option<FontStretch>) -> bool {
        value == match obj.as_identifier() {
            Some(name) => FontStretch::named(name),
            None => None,
        }
    }

    fn from(data: &PdfObject, pdf: &mut Pdf) -> (r: Option<FontStretch>) {
        match data.as_identifier() {
            Some(name) => FontStretch::from_name(name.as_slice()),
            None => None,
        }
    }
}

/// A flag of a font descriptor.
#[derive(Debug, Clone, Copy, PartialEq, Eq, Structural)]
pub enum FontFlag {
    FixedPitch,
    Serif,
    Symbolic,
    Script,
    Nonsymbolic,
    Italic,
    AllCap,
    SmallCap,
    ForceBold,
}

/// Whether bit `i` of `data` is set, the lowest bit being bit 1.
pub open spec fn spec_has_bit(data: u64, i: u32) -> bool {
    (data & (1u64 << ((i - 1) as u32))) > 0
}

/// Whether bit `i` of `data` is set, the lowest bit being bit 1.
pub fn has_bit(data: u64, i: u32) -> (r: bool)
    requires
        1 <= i <= 64,
    ensures
        r == spec_has_bit(data, i),
{
    (data & (1u64 << (i - 1))) > 0
}

impl FontFlag {
    /// The bit that stands for the flag.
    pub open spec fn bit(self) -> u32 {
        match self {
            FontFlag::FixedPitch => 1,
            FontFlag::Serif => 2,
            FontFlag::Symbolic => 3,
            FontFlag::Script => 4,
            FontFlag::Nonsymbolic => 6,
            FontFlag::Italic => 7,
            FontFlag::AllCap => 17,
            FontFlag::SmallCap => 18,
            FontFlag::ForceBold => 19,
        }
    }

    /// `[self]` where the flag is set in `data`, nothing where it is not.
    pub open spec fn if_set(self, data: u64) -> Seq<FontFlag> {
        if spec_has_bit(data, self.bit()) {
            seq![self]
        } else {
            seq![]
        }
    }

    /// The flags that are set in `data`, each once, in the order of their
    /// bits.
    pub open spec fn set_in(data: u64) -> Seq<FontFlag> {
        FontFlag::FixedPitch.if_set(data) + FontFlag::Serif.if_set(data)
            + FontFlag::Symbolic.if_set(data) + FontFlag::Script.if_set(data)
            + FontFlag::Nonsymbolic.if_set(data) + FontFlag::Italic.if_set(data)
            + FontFlag::AllCap.if_set(data) + FontFlag::SmallCap.if_set(data)
            + FontFlag::ForceBold.if_set(data)
    }

    /// Appends the flag to `flags` where it is set in `data`.
    fn push_if_set(self, data: u64, flags: &mut Vec<FontFlag>)
        ensures
            final(flags)@ == old(flags)@ + self.if_set(data),
    {
        let bit: u32 = match self {
            FontFlag::FixedPitch => 1,
            FontFlag::Serif => 2,
            FontFlag::Symbolic => 3,
            FontFlag::Script => 4,
            FontFlag::Nonsymbolic => 6,
            FontFlag::Italic => 7,
            FontFlag::AllCap => 17,
            FontFlag::SmallCap => 18,
            FontFlag::ForceBold => 19,
        };
        if has_bit(data, bit) {
            flags.push(self);
            assert(flags@ =~= old(flags)@ + self.if_set(data));
        } else {
            assert(flags@ =~= old(flags)@ + self.if_set(data));
        }
    }

    /// The flags that are set in `data`.
    pub fn flags(data: u64) -> (r: Vec<FontFlag>)
        ensures
            r@ == Self::set_in(data),
    {
        let mut flags: Vec<FontFlag> = Vec::new();
        FontFlag::FixedPitch.push_if_set(data, &mut flags);
        assert(flags@ =~= FontFlag::FixedPitch.if_set(data));
        FontFlag::Serif.push_if_set(data, &mut flags);
        FontFlag::Symbolic.push_if_set(data, &mut flags);
        FontFlag::Script.push_if_set(data, &mut flags);
        FontFlag::Nonsymbolic.push_if_set(data, &mut flags);
        FontFlag::Italic.push_if_set(data, &mut flags);
        FontFlag::AllCap.push_if_set(data, &mut flags);
        FontFlag::SmallCap.push_if_set(data, &mut flags);
        FontFlag::ForceBold.push_if_set(data, &mut flags);
        flags
    }
}

impl OptionalFrom for Vec<FontFlag> {
    open spec fn reads(obj: Object, document: Document, value: Option<Vec<FontFlag>>) -> bool {
        match obj.as_unsigned() {
            Some(data) => value is Some && value->Some_0@ == FontFlag::set_in(data),
            None => value is None,
        }
    }

    fn from(obj: &PdfObject, pdf: &mut Pdf) -> (r: Option<Vec<FontFlag>>) {
        match obj.as_unsigned() {
            Some(data) => Some(FontFlag::flags(data)),
            None => None,
        }
    }
}

/// What `d` holds under `key`, read as a value of the type `T`: none where
/// it holds nothing there.
pub fn field<T: OptionalFrom>(d: &PdfDictionary, key: &str, pdf: &mut Pdf) -> (r: Option<T>)
    requires
        old(pdf).well_formed(),
    ensures
        final(pdf).well_formed(),
        old(pdf)@.resolved_to(final(pdf)@),
        d@.contains_key(key.spec_bytes()) ==> T::reads(d@[key.spec_bytes()], old(pdf)@, r),
        !d@.contains_key(key.spec_bytes()) ==> r is None,
{
    match d.get(key) {
        Some(o) => T::from(o, pdf),
        None => None,
    }
}

/// The descriptor of a font.
#[derive(Debug, Clone, PartialEq)]
pub struct FontDescriptor {
    pub weight: u64,
    pub flags: Vec<FontFlag>,
    pub bounding_box: Rectangle,
    pub italic_angle: Real,
    pub ascent: Real,
    pub descent: Real,
    pub stretch: Option<FontStretch>,
    pub leading: Option<Real>,
    pub cap_height: Option<Real>,
    pub x_height: Option<Real>,
    pub stem_vertical: Option<Real>,
    pub stem_horizontal: Option<Real>,
    pub average_width: Option<Real>,
    pub max_width: Option<Real>,
    pub missing_width: Option<Real>,
    pub char_set: Option<Vec<u8>>,
}

/// Whether `d` holds under `key` what reads as a value of the type `T`.
pub open spec fn has_field<T: OptionalFrom>(d: Map<Seq<u8>, Object>, key: Seq<u8>, document: Document) -> bool {
    d.contains_key(key) && !T::reads(d[key], document, None)
}

impl OptionalFrom for FontDescriptor {
    /// A descriptor is read from a dictionary that holds a weight, flags, a
    /// bounding box, an italic angle, an ascent and a descent.
    open spec fn reads(obj: Object, document: Document, value: Option<FontDescriptor>) -> bool {
        match document.dictionary_of(obj) {
            None => value is None,
            Some(d) => {
                let complete = has_field::<u64>(d, "FontWeight".spec_bytes(), document)
                    && has_field::<Vec<FontFlag>>(d, "Flags".spec_bytes(), document)
                    && has_field::<Rectangle>(d, "FontBBox".spec_bytes(), document)
                    && has_field::<Real>(d, "ItalicAngle".spec_bytes(), document)
                    && has_field::<Real>(d, "Ascent".spec_bytes(), document) && has_field::<Real>(
                    d,
                    "Descent".spec_bytes(),
                    document,
                );
                (value is Some <==> complete) && (value matches Some(found) ==> u64::reads(
                    d["FontWeight".spec_bytes()],
                    document,
                    Some(found.weight),
                ) && <Vec<FontFlag>>::reads(d["Flags".spec_bytes()], document, Some(found.flags)))
            },
        }
    }

    fn from(obj: &PdfObject, pdf: &mut Pdf) -> (r: Option<FontDescriptor>) {
        let data: PdfDictionary = match obj.as_dictionary(pdf) {
            Some(d) => d,
            None => {
                return None;
            },
        };
        let weight: u64 = match field::<u64>(&data, "FontWeight", pdf) {
            Some(v) => v,
            None => {
                return None;
            },
        };
        let flags: Vec<FontFlag> = match field::<Vec<FontFlag>>(&data, "Flags", pdf) {
            Some(v) => v,
            None => {
                return None;
            },
        };
        let bounding_box: Rectangle = match field::<Rectangle>(&data, "FontBBox", pdf) {
            Some(v) => v,
            None => {
                return None;
            },
        };
        let italic_angle: Real = match field::<Real>(&data, "ItalicAngle", pdf) {
            Some(v) => v,
            None => {
                return None;
            },
        };
        let ascent: Real = match field::<Real>(&data, "Ascent", pdf) {
            Some(v) => v,
            None => {
                return None;
            },
        };
        let descent: Real = match field::<Real>(&data, "Descent", pdf) {
            Some(v) => v,
            None => {
                return None;
            },
        };
        let stretch = field::<FontStretch>(&data, "FontStretch", pdf);
        let leading = field::<Real>(&data, "Leading", pdf);
        let cap_height = field::<Real>(&data, "CapHeight", pdf);
        let x_height = field::<Real>(&data, "XHeight", pdf);
        let stem_vertical = field::<Real>(&data, "StemV", pdf);
        let stem_horizontal = field::<Real>(&data, "StemH", pdf);
        let average_width = field::<Real>(&data, "AvgWidth", pdf);
        let max_width = field::<Real>(&data, "MaxWidth", pdf);
        let missing_width = field::<Real>(&data, "MissingWidth", pdf);
        let char_set = field::<Vec<u8>>(&data, "CharSet", pdf);
        Some(
            FontDescriptor {
                weight,
                flags,
                bounding_box,
                italic_angle,
                ascent,
                descent,
                stretch,
                leading,
                cap_height,
                x_height,
                stem_vertical,
                stem_horizontal,
                average_width,
                max_width,
                missing_width,
                char_set,
            },
        )
    }
}

/// A Type 1 font.
#[derive(Debug, Clone, PartialEq)]
pub struct Type1Font {
    pub base_font: String,
    pub first_char: i64,
    pub last_char: i64,
    pub widths: Vec<i64>,
    pub descriptor: Option<FontDescriptor>,
}

impl OptionalFrom for Type1Font {
    /// A Type 1 font is read from a dictionary that holds the name of its
    /// base font, its first and its last character, and its widths.
    open spec fn reads(obj: Object, document: Document, value: Option<Type1Font>) -> bool {
        match document.dictionary_of(obj) {
            None => value is None,
            Some(d) => {
                let complete = has_field::<String>(d, "BaseFont".spec_bytes(), document)
                    && has_field::<i64>(d, "FirstChar".spec_bytes(), document) && has_field::<i64>(
                    d,
                    "LastChar".spec_bytes(),
                    document,
                ) && has_field::<Vec<i64>>(d, "Widths".spec_bytes(), document);
                (value is Some <==> complete) && (value matches Some(found) ==> String::reads(
                    d["BaseFont".spec_bytes()],
                    document,
                    Some(found.base_font),
                ) && i64::reads(d["FirstChar".spec_bytes()], document, Some(found.first_char))
                    && i64::reads(d["LastChar".spec_bytes()], document, Some(found.last_char))
                    && <Vec<i64>>::reads(d["Widths".spec_bytes()], document, Some(found.widths))
                    && (d.contains_key("FontDescriptor".spec_bytes()) ==> FontDescriptor::reads(
                    d["FontDescriptor".spec_bytes()],
                    document,
                    found.descriptor,
                )) && (!d.contains_key("FontDescriptor".spec_bytes()) ==> found.descriptor
                    is None))
            },
        }
    }

    fn from(obj: &PdfObject, pdf: &mut Pdf) -> (r: Option<Type1Font>) {
        let data: PdfDictionary = match obj.as_dictionary(pdf) {
            Some(d) => d,
            None => {
                return None;
            },
        };
        let base_font: String = match field::<String>(&data, "BaseFont", pdf) {
            Some(v) => v,
            None => {
                return None;
            },
        };
        let first_char: i64 = match field::<i64>(&data, "FirstChar", pdf) {
            Some(v) => v,
            None => {
                return None;
            },
        };
        let last_char: i64 = match field::<i64>(&data, "LastChar", pdf) {
            Some(v) => v,
            None => {
                return None;
            },
        };
        let widths: Vec<i64> = match field::<Vec<i64>>(&data, "Widths", pdf) {
            Some(v) => v,
            None => {
                return None;
            },
        };
        let descriptor = field::<FontDescriptor>(&data, "FontDescriptor", pdf);
        Some(Type1Font { base_font, first_char, last_char, widths, descriptor })
    }
}

/// A font.
#[derive(Debug, Clone, PartialEq)]
pub enum Font {
    Type1(Type1Font),
}

impl OptionalFrom for Font {
    /// A font is read from a dictionary whose `Subtype` names a kind of
    /// font that is known, and as a font of that kind.
    open spec fn reads(obj: Object, document: Document, value: Option<Font>) -> bool {
        match document.dictionary_of(obj) {
            None => value is None,
            Some(d) => {
                if d.contains_key("Subtype".spec_bytes()) && d["Subtype".spec_bytes()]
                    == Object::Identifier("Type1".spec_bytes()) {
                    match value {
                        Some(Font::Type1(font)) => Type1Font::reads(obj, document, Some(font)),
                        None => Type1Font::reads(obj, document, None),
                    }
                } else {
                    value is None
                }
            },
        }
    }

    fn from(data: &PdfObject, pdf: &mut Pdf) -> (r: Option<Font>) {
        let dictionary: PdfDictionary = match data.as_dictionary(pdf) {
            Some(d) => d,
            None => {
                return None;
            },
        };
        let is_type1: bool = match dictionary.identifier("Subtype") {
            Some(name) => bytes_eq(name.as_slice(), "Type1".as_bytes()),
            None => false,
        };
        if !is_type1 {
            return None;
        }
        match <Type1Font as OptionalFrom>::from(data, pdf) {
            Some(font) => Some(Font::Type1(font)),
            None => None,
        }
    }
}

} // verus!
