use pdf::decimal::{parse_real, Real};
use pdf::document::{parse_pdf, Pdf};
use pdf::font::{has_bit, Font, FontFlag, FontStretch};
use pdf::object::{Key, PdfDictionary, PdfObject};
use pdf::parse::Definition;
use pdf::resolver::{
    is_of_type, resolve_objects, resolve_pdf, Catalog, ColorSpace, GraphicsState, InlineImageKey,
    PageTree, ProcSet, Resources,
};
use pdf::types::{NumberTreeNode, OptionalFrom, Rectangle};

const SAMPLE: &[u8] = b"%PDF-1.7\n1 0 obj\n<< /Type /Catalog /Pages 2 0 R /PageLabels 8 0 R >>\nendobj\n2 0 obj\n<< /Type /Pages /Kids [3 0 R 9 0 R] /Count 2 >>\nendobj\n3 0 obj\n<< /Type /Page /Parent 2 0 R /MediaBox [0 0 612 792.5] /Resources 4 0 R >>\nendobj\n4 0 obj\n<< /ProcSet [/PDF /Text /Unknown /ImageC] /ExtGState << /GS1 5 0 R /GS2 << /LW 2 /OP true >> /Bad 7 >> /Font << /F1 6 0 R >> >>\nendobj\n5 0 obj\n<< /LW 1.5 /LC 1 /LJ 2 /ML 10 /D [[3 5] 6] /RI /Perceptual /op false /OPM 1 >>\nendobj\n6 0 obj\n<< /Type /Font /Subtype /Type1 /BaseFont /Helvetica /FirstChar 32 /LastChar 34 /Widths [278 278 355] /FontDescriptor 7 0 R >>\nendobj\n7 0 obj\n<< /Type /FontDescriptor /FontWeight 400 /Flags 262178 /FontBBox [-166 -225 1000 931] /ItalicAngle -12 /Ascent 718 /Descent -207 /FontStretch /Condensed /CapHeight 718.5 /CharSet (abc) >>\nendobj\n8 0 obj\n<< /Nums [0 10 0 R 4 11 0 R] /Limits [0 4] /Kids [12 0 R] >>\nendobj\n9 0 obj\n<< /Type /Pages /Kids [13 0 R] /Count 1 >>\nendobj\n10 0 obj\n<< /S /D >>\nendobj\n11 0 obj\n<< /S /r >>\nendobj\n12 0 obj\n<< /Nums [7 10 0 R] >>\nendobj\n13 0 obj\n<< /Type /Page /Parent 9 0 R >>\nendobj\n14 0 obj\n<< /Type /Font /Subtype /TrueType /BaseFont /Arial >>\nendobj\nxref\n0 15\n0000000000 65535 f\r\n0000000009 00000 n\r\n0000000076 00000 n\r\n0000000139 00000 n\r\n0000000229 00000 n\r\n0000000372 00000 n\r\n0000000466 00000 n\r\n0000000607 00000 n\r\n0000000810 00000 n\r\n0000000886 00000 n\r\n0000000944 00000 n\r\n0000000972 00000 n\r\n0000001000 00000 n\r\n0000001039 00000 n\r\n0000001087 00000 n\r\ntrailer\n<< /Size 15 /Root 1 0 R >>\nstartxref\n1157\n%%EOF\n";

fn decimal(text: &str) -> Real {
    parse_real(text.as_bytes()).unwrap()
}

fn dictionary(pdf: &mut Pdf, number: u64) -> PdfDictionary {
    match pdf.resolve(&Key::new(number, 0)).unwrap() {
        PdfObject::Dictionary(d) => d,
        _ => panic!("no dictionary"),
    }
}

#[test]
fn the_catalog_is_read_with_its_page_tree() {
    let mut pdf = parse_pdf(SAMPLE).unwrap();
    let resolved = resolve_pdf(&mut pdf).unwrap();
    let catalog: Catalog = resolved.catalog.unwrap();
    assert_eq!(catalog.page_tree.count, 2);
    assert_eq!(catalog.page_tree.kids.len(), 2);
    let page = &catalog.page_tree.kids[0];
    assert!(page.kids.is_empty());
    assert_eq!(
        page.data.media_box,
        Some(Rectangle {
            ll_x: Real::from_integer(0),
            ll_y: Real::from_integer(0),
            ur_x: Real::from_integer(612),
            ur_y: decimal("792.5"),
        })
    );
    let inner = &catalog.page_tree.kids[1];
    assert_eq!(inner.kids.len(), 1);
    assert_eq!(inner.data.media_box, None);
    assert_eq!(inner.data.resources, None);
    assert!(inner.kids[0].kids.is_empty());
}

#[test]
fn page_labels_are_a_number_tree() {
    let mut pdf = parse_pdf(SAMPLE).unwrap();
    let labels = dictionary(&mut pdf, 8);
    let tree = NumberTreeNode::from(&labels, &mut pdf).unwrap();
    assert_eq!(tree.upper_limit, Some(0));
    assert_eq!(tree.lower_limit, Some(4));
    assert_eq!(tree.nums.len(), 2);
    assert_eq!(tree.nums[&0], pdf.get(&Key::new(10, 0)));
    assert_eq!(tree.nums[&4], pdf.get(&Key::new(11, 0)));
    assert_eq!(tree.kids.len(), 1);
    assert_eq!(tree.kids[0].nums.len(), 1);
    assert_eq!(tree.kids[0].upper_limit, None);
    assert!(tree.kids[0].kids.is_empty());
    let shallow = NumberTreeNode::node(&labels, &mut pdf, 0).unwrap();
    assert!(shallow.kids.is_empty());

    let odd = pdf::parse::dictionary(b"<< /Nums [0 10 0 R 4] >>").unwrap().data;
    assert!(NumberTreeNode::from(&odd, &mut pdf).is_none());
    let no_reference = pdf::parse::dictionary(b"<< /Nums [0 10] >>").unwrap().data;
    assert!(NumberTreeNode::from(&no_reference, &mut pdf).is_none());
    let none = pdf::parse::dictionary(b"<< >>").unwrap().data;
    assert!(NumberTreeNode::from(&none, &mut pdf).unwrap().nums.is_empty());
}

#[test]
fn resources_give_procedure_sets_and_graphics_states() {
    let mut pdf = parse_pdf(SAMPLE).unwrap();
    let data = dictionary(&mut pdf, 4);
    let resources = Resources::from(&data, &mut pdf).unwrap();
    assert_eq!(resources.proc_set, vec![ProcSet::Pdf, ProcSet::Text, ProcSet::ImageC]);
    let states = resources.graphics_state.unwrap();
    assert_eq!(states.len(), 2);
    assert_eq!(states[0].name, b"GS1".to_vec());
    assert_eq!(
        states[0].state,
        GraphicsState {
            line_width: Some(decimal("1.5")),
            line_cap_style: Some(1),
            line_join_style: Some(2),
            miter_limit: Some(Real::from_integer(10)),
            dash_array: Some((vec![3, 5], 6)),
            name: Some(b"Perceptual".to_vec()),
            overprint: None,
            non_stroking_overprint: Some(false),
            overprint_mode: Some(1),
        }
    );
    assert_eq!(states[1].name, b"GS2".to_vec());
    assert_eq!(states[1].state.line_width, Some(Real::from_integer(2)));
    assert_eq!(states[1].state.overprint, Some(true));
    assert_eq!(states[1].state.dash_array, None);

    let bare = pdf::parse::dictionary(b"<< /ExtGState << >> >>").unwrap().data;
    assert_eq!(Resources::from(&bare, &mut pdf), None);
    let plain = pdf::parse::dictionary(b"<< /ProcSet [] >>").unwrap().data;
    let found = Resources::from(&plain, &mut pdf).unwrap();
    assert!(found.proc_set.is_empty());
    assert_eq!(found.graphics_state, None);
}

#[test]
fn fonts_are_read_with_their_descriptors() {
    let mut pdf = parse_pdf(SAMPLE).unwrap();
    let resolved = resolve_pdf(&mut pdf).unwrap();
    assert_eq!(resolved.fonts.len(), 1);
    let Font::Type1(font) = &resolved.fonts[0];
    assert_eq!(font.base_font, "Helvetica");
    assert_eq!(font.first_char, 32);
    assert_eq!(font.last_char, 34);
    assert_eq!(font.widths, vec![278, 278, 355]);
    let descriptor = font.descriptor.as_ref().unwrap();
    assert_eq!(descriptor.weight, 400);
    assert_eq!(
        descriptor.flags,
        vec![FontFlag::Serif, FontFlag::Nonsymbolic, FontFlag::ForceBold]
    );
    assert_eq!(descriptor.italic_angle, Real::from_integer(-12));
    assert_eq!(descriptor.ascent, Real::from_integer(718));
    assert_eq!(descriptor.descent, Real::from_integer(-207));
    assert_eq!(descriptor.stretch, Some(FontStretch::Condensed));
    assert_eq!(descriptor.cap_height, Some(decimal("718.5")));
    assert_eq!(descriptor.leading, None);
    assert_eq!(descriptor.char_set, Some(b"abc".to_vec()));
    assert_eq!(descriptor.bounding_box.ll_x, Real::from_integer(-166));
    assert_eq!(descriptor.bounding_box.ur_y, Real::from_integer(931));

    let other = PdfObject::Reference(Key::new(14, 0));
    assert_eq!(<Font as OptionalFrom>::from(&other, &mut pdf), None);
    let incomplete = pdf::parse::object(b"<< /Subtype /Type1 /BaseFont /X >>").unwrap().data;
    assert_eq!(<Font as OptionalFrom>::from(&incomplete, &mut pdf), None);
}

#[test]
fn a_page_tree_needs_its_nodes_and_its_count() {
    let mut pdf = parse_pdf(SAMPLE).unwrap();
    let pages = dictionary(&mut pdf, 2);
    let tree = PageTree::from(&pages, &mut pdf).unwrap();
    assert_eq!(tree.count, 2);
    assert_eq!(PageTree::kids(&pages, &mut pdf, 1).map(|k| k.len()), Some(2));
    assert_eq!(PageTree::kids(&pages, &mut pdf, 0), None);
    let no_count = pdf::parse::dictionary(b"<< /Kids [3 0 R] >>").unwrap().data;
    assert_eq!(PageTree::from(&no_count, &mut pdf), None);
    let no_kids = pdf::parse::dictionary(b"<< /Count 1 >>").unwrap().data;
    assert_eq!(PageTree::from(&no_kids, &mut pdf), None);
    let lost = pdf::parse::dictionary(b"<< /Kids [99 0 R] /Count 1 >>").unwrap().data;
    assert_eq!(PageTree::from(&lost, &mut pdf), None);
    let catalog = pdf::parse::dictionary(b"<< /Type /Catalog >>").unwrap().data;
    assert!(Catalog::from(&catalog, &mut pdf).is_none());
    assert!(is_of_type(&catalog, "Catalog"));
    assert!(!is_of_type(&catalog, "Font"));
    assert!(!is_of_type(&no_kids, "Catalog"));
}

#[test]
fn names_map_to_their_kinds() {
    assert_eq!(ProcSet::from(b"PDF"), Some(ProcSet::Pdf));
    assert_eq!(ProcSet::from(b"Text"), Some(ProcSet::Text));
    assert_eq!(ProcSet::from(b"ImageB"), Some(ProcSet::ImageB));
    assert_eq!(ProcSet::from(b"ImageC"), Some(ProcSet::ImageC));
    assert_eq!(ProcSet::from(b"ImageI"), Some(ProcSet::ImageI));
    assert_eq!(ProcSet::from(b"pdf"), None);
    assert_eq!(ColorSpace::from(b"DeviceGray"), Some(ColorSpace::Gray));
    assert_eq!(ColorSpace::from(b"G"), Some(ColorSpace::Gray));
    assert_eq!(ColorSpace::from(b"DeviceRGB"), Some(ColorSpace::RGB));
    assert_eq!(ColorSpace::from(b"RGB"), Some(ColorSpace::RGB));
    assert_eq!(ColorSpace::from(b"DeviceCMYK"), Some(ColorSpace::CMYK));
    assert_eq!(ColorSpace::from(b"CMYK"), Some(ColorSpace::CMYK));
    assert_eq!(ColorSpace::from(b"Lab"), None);
    assert_eq!(ColorSpace::Gray.components(), 1);
    assert_eq!(ColorSpace::RGB.components(), 3);
    assert_eq!(ColorSpace::CMYK.components(), 4);
    assert_eq!(InlineImageKey::from(b"BPC"), Some(InlineImageKey::BitsPerComponent));
    assert_eq!(InlineImageKey::from(b"BitsPerComponent"), Some(InlineImageKey::BitsPerComponent));
    assert_eq!(InlineImageKey::from(b"CS"), Some(InlineImageKey::ColorSpace));
    assert_eq!(InlineImageKey::from(b"D"), Some(InlineImageKey::Decode));
    assert_eq!(InlineImageKey::from(b"DP"), Some(InlineImageKey::DecodeParams));
    assert_eq!(InlineImageKey::from(b"F"), Some(InlineImageKey::Filter));
    assert_eq!(InlineImageKey::from(b"H"), Some(InlineImageKey::Height));
    assert_eq!(InlineImageKey::from(b"IM"), Some(InlineImageKey::ImageMask));
    assert_eq!(InlineImageKey::from(b"Intent"), Some(InlineImageKey::Intent));
    assert_eq!(InlineImageKey::from(b"I"), Some(InlineImageKey::Interpolate));
    assert_eq!(InlineImageKey::from(b"W"), Some(InlineImageKey::Width));
    assert_eq!(InlineImageKey::from(b"Width"), Some(InlineImageKey::Width));
    assert_eq!(InlineImageKey::from(b"X"), None);
    assert_eq!(FontStretch::from_name(b"UltraCondensed"), Some(FontStretch::UltraCondensed));
    assert_eq!(FontStretch::from_name(b"Normal"), Some(FontStretch::Normal));
    assert_eq!(FontStretch::from_name(b"UltraExpanded"), Some(FontStretch::UltraExpanded));
    assert_eq!(FontStretch::from_name(b"Wide"), None);
}

#[test]
fn flags_are_bits_counted_from_one() {
    assert!(has_bit(1, 1));
    assert!(!has_bit(1, 2));
    assert!(has_bit(1 << 63, 64));
    assert!(!has_bit(u64::MAX >> 1, 64));
    assert_eq!(FontFlag::flags(0), vec![]);
    assert_eq!(FontFlag::flags(1), vec![FontFlag::FixedPitch]);
    assert_eq!(FontFlag::flags(0b1101010), vec![FontFlag::Serif, FontFlag::Script, FontFlag::Nonsymbolic, FontFlag::Italic]);
    assert_eq!(
        FontFlag::flags(u64::MAX),
        vec![
            FontFlag::FixedPitch,
            FontFlag::Serif,
            FontFlag::Symbolic,
            FontFlag::Script,
            FontFlag::Nonsymbolic,
            FontFlag::Italic,
            FontFlag::AllCap,
            FontFlag::SmallCap,
            FontFlag::ForceBold
        ]
    );
    assert_eq!(FontFlag::flags(1 << 4), vec![]);
}

#[test]
fn objects_read_as_numbers_and_text() {
    let mut pdf = parse_pdf(SAMPLE).unwrap();
    let read = |text: &str| pdf::parse::object(text.as_bytes()).unwrap().data;
    assert_eq!(<u64 as OptionalFrom>::from(&read("7"), &mut pdf), Some(7));
    assert_eq!(<u64 as OptionalFrom>::from(&read("0"), &mut pdf), None);
    assert_eq!(<u64 as OptionalFrom>::from(&read("-7"), &mut pdf), None);
    assert_eq!(<i64 as OptionalFrom>::from(&read("-7"), &mut pdf), Some(-7));
    assert_eq!(<i64 as OptionalFrom>::from(&read("7.5"), &mut pdf), None);
    assert_eq!(<Real as OptionalFrom>::from(&read("7.5"), &mut pdf), Some(decimal("7.5")));
    assert_eq!(<Real as OptionalFrom>::from(&read("-7"), &mut pdf), Some(decimal("-7")));
    assert_eq!(<Real as OptionalFrom>::from(&read("(7)"), &mut pdf), None);
    assert_eq!(<Vec<u64> as OptionalFrom>::from(&read("[1 0 -2 (x) 3]"), &mut pdf), Some(vec![1, 3]));
    assert_eq!(<Vec<i64> as OptionalFrom>::from(&read("[1 0 -2 (x) 3]"), &mut pdf), Some(vec![1, 0, -2, 3]));
    assert_eq!(<Vec<i64> as OptionalFrom>::from(&read("1"), &mut pdf), None);
    assert_eq!(<Vec<u8> as OptionalFrom>::from(&read("(ab)"), &mut pdf), Some(b"ab".to_vec()));
    assert_eq!(<Vec<u8> as OptionalFrom>::from(&read("/ab"), &mut pdf), None);
    assert_eq!(<String as OptionalFrom>::from(&read("(ab)"), &mut pdf), Some("ab".to_string()));
    assert_eq!(<String as OptionalFrom>::from(&read("/ab"), &mut pdf), Some("ab".to_string()));
    assert_eq!(<String as OptionalFrom>::from(&read("<FF>"), &mut pdf), None);
    assert_eq!(<String as OptionalFrom>::from(&read("1"), &mut pdf), None);
    assert_eq!(<Rectangle as OptionalFrom>::from(&read("[1 2 3]"), &mut pdf), None);
    assert_eq!(
        <Rectangle as OptionalFrom>::from(&read("[1 (x) 2.5 3 4 5]"), &mut pdf),
        Some(Rectangle {
            ll_x: decimal("1"),
            ll_y: decimal("2.5"),
            ur_x: decimal("3"),
            ur_y: decimal("4"),
        })
    );
}

#[test]
fn dictionaries_are_found_through_references() {
    let mut pdf = parse_pdf(SAMPLE).unwrap();
    let catalog = dictionary(&mut pdf, 1);
    let pages = catalog.dictionary("Pages", &mut pdf).unwrap();
    assert_eq!(pages.unsigned("Count"), Some(2));
    assert_eq!(catalog.dictionary("Missing", &mut pdf), None);
    assert_eq!(catalog.dictionary("Type", &mut pdf), None);
    let kids = pages.map_reference_array("Kids", &mut pdf).unwrap();
    assert_eq!(kids.len(), 2);
    assert_eq!(kids[1].unsigned("Count"), Some(1));
    assert_eq!(pages.map_reference_array("Count", &mut pdf), None);
    let lost = pdf::parse::dictionary(b"<< /Kids [3 0 R 99 0 R] >>").unwrap().data;
    assert_eq!(lost.map_reference_array("Kids", &mut pdf), None);
    let through = PdfObject::Reference(Key::new(2, 0));
    assert_eq!(through.as_dictionary(&mut pdf), Some(pages));
    assert_eq!(PdfObject::Integer(1).as_dictionary(&mut pdf), None);
}

#[test]
fn the_objects_in_use_are_listed() {
    let mut pdf = parse_pdf(SAMPLE).unwrap();
    let mut numbers = pdf.numbers();
    numbers.sort();
    assert_eq!(numbers, (0..15).collect::<Vec<u64>>());
    let mut objects = pdf.objects();
    objects.sort_by_key(|d| d.key.object);
    assert_eq!(objects.len(), 14);
    for (i, found) in objects.iter().enumerate() {
        assert_eq!(found.key, Key::new(i as u64 + 1, 0));
        assert_eq!(found.object, pdf.get(&found.key));
        assert_ne!(found.object, PdfObject::Null);
    }
}

fn read(text: &str) -> PdfObject {
    pdf::parse::object(text.as_bytes()).unwrap().data
}

fn listed(objects: Vec<PdfObject>) -> Vec<Definition> {
    objects
        .into_iter()
        .enumerate()
        .map(|(i, object)| Definition::new(Key::new(100 + i as u64, 0), object))
        .collect()
}

#[test]
fn objects_are_read_in_the_order_in_which_they_are_given() {
    let mut pdf = parse_pdf(SAMPLE).unwrap();
    let first = read("1 0 R");
    let second = read("<< /Type /Catalog /Pages 9 0 R >>");
    let font = read("6 0 R");
    let other = read("<< /Type /Font /Subtype /Type1 /BaseFont /Times /FirstChar 1 /LastChar 1 /Widths [5] >>");
    let unknown = read("14 0 R");
    let found = resolve_objects(
        &listed(vec![font.clone(), first.clone(), read("7"), unknown.clone(), second.clone(), other.clone()]),
        &mut pdf,
    )
    .unwrap();
    assert_eq!(found.catalog.unwrap().page_tree.count, 1);
    assert_eq!(found.fonts.len(), 2);
    let Font::Type1(one) = &found.fonts[0];
    let Font::Type1(two) = &found.fonts[1];
    assert_eq!(one.base_font, "Helvetica");
    assert_eq!(two.base_font, "Times");
    let turned = resolve_objects(&listed(vec![other, second, first, font]), &mut pdf).unwrap();
    assert_eq!(turned.catalog.unwrap().page_tree.count, 2);
    let Font::Type1(one) = &turned.fonts[0];
    let Font::Type1(two) = &turned.fonts[1];
    assert_eq!(one.base_font, "Times");
    assert_eq!(two.base_font, "Helvetica");
    let none = resolve_objects(&listed(vec![read("7"), unknown]), &mut pdf).unwrap();
    assert!(none.catalog.is_none());
    assert!(none.fonts.is_empty());
    let empty = resolve_objects(&Vec::new(), &mut pdf).unwrap();
    assert!(empty.catalog.is_none() && empty.fonts.is_empty());
}

#[test]
fn a_catalog_that_cannot_be_read_ends_the_reading() {
    let mut pdf = parse_pdf(SAMPLE).unwrap();
    let broken = vec![
        read("<< /Type /Catalog >>"),
        read("<< /Type /Catalog /Pages 7 >>"),
        read("<< /Type /Catalog /Pages << /Kids [3 0 R] >> >>"),
        read("<< /Type /Catalog /Pages << /Count 1 >> >>"),
        read("<< /Type /Catalog /Pages << /Kids [99 0 R] /Count 1 >> >>"),
    ];
    for one in broken {
        assert!(resolve_objects(&listed(vec![read("1 0 R"), one.clone()]), &mut pdf).is_none());
        assert!(resolve_objects(&listed(vec![one, read("1 0 R")]), &mut pdf).is_none());
    }
    assert!(resolve_objects(&listed(vec![read("<< /Type /Other >>")]), &mut pdf).is_some());
}

#[test]
fn a_catalog_is_its_page_tree_and_its_page_labels() {
    let mut pdf = parse_pdf(SAMPLE).unwrap();
    let whole = dictionary(&mut pdf, 1);
    let catalog = Catalog::from(&whole, &mut pdf).unwrap();
    assert_eq!(catalog.page_tree.count, 2);
    assert_eq!(catalog.page_tree.kids.len(), 2);
    let labels = catalog.page_labels.unwrap();
    assert_eq!((labels.upper_limit, labels.lower_limit), (Some(0), Some(4)));
    assert!(labels.nums.contains_key(&0) && labels.nums.contains_key(&4));
    let bare = pdf::parse::dictionary(b"<< /Pages 9 0 R >>").unwrap().data;
    let catalog = Catalog::from(&bare, &mut pdf).unwrap();
    assert_eq!(catalog.page_tree.count, 1);
    assert!(catalog.page_labels.is_none());
    let odd = pdf::parse::dictionary(b"<< /Pages 9 0 R /PageLabels << /Nums [1] >> >>").unwrap().data;
    assert!(Catalog::from(&odd, &mut pdf).unwrap().page_labels.is_none());
    let lost = pdf::parse::dictionary(b"<< /PageLabels 8 0 R >>").unwrap().data;
    assert!(Catalog::from(&lost, &mut pdf).is_none());
}

#[test]
fn nodes_are_read_down_to_a_depth() {
    let mut pdf = parse_pdf(SAMPLE).unwrap();
    let root = dictionary(&mut pdf, 2);
    assert!(PageTree::kids(&root, &mut pdf, 0).is_none());
    let shallow = PageTree::kids(&root, &mut pdf, 1).unwrap();
    assert_eq!(shallow.len(), 2);
    assert!(shallow[0].kids.is_empty() && shallow[1].kids.is_empty());
    assert!(shallow[0].data.media_box.is_some());
    assert_eq!(shallow[0].data.resources.as_ref().unwrap().proc_set.len(), 3);
    let deep = PageTree::kids(&root, &mut pdf, 2).unwrap();
    assert_eq!(deep.len(), 2);
    assert!(deep[0].kids.is_empty());
    assert_eq!(deep[1].kids.len(), 1);
    assert!(deep[1].kids[0].kids.is_empty());
    let top = PageTree::kid(&root, &mut pdf, 0).unwrap();
    assert!(top.kids.is_empty());
    assert!(top.data.media_box.is_none() && top.data.resources.is_none());
    let top = PageTree::kid(&root, &mut pdf, 1).unwrap();
    assert_eq!(top.kids.len(), 2);
    assert!(top.kids[1].kids.is_empty());
    let leaf = dictionary(&mut pdf, 3);
    let page = PageTree::kid(&leaf, &mut pdf, 5).unwrap();
    assert!(page.kids.is_empty());
    assert!(page.data.media_box.is_some());
    assert!(PageTree::kids(&leaf, &mut pdf, 5).is_none());
    let tree = PageTree::from(&root, &mut pdf).unwrap();
    assert_eq!((tree.count, tree.kids.len(), tree.kids[1].kids.len()), (2, 2, 1));
    assert!(PageTree::from(&leaf, &mut pdf).is_none());
}
