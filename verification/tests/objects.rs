use pdf::decimal::parse_real;
use pdf::error::Error;
use pdf::lexer::Res;
use pdf::object::{Entry, Key, PdfDictionary, PdfObject};
use pdf::parse::{array, definition, dictionary, object, reference, Definition};

fn from_bytes(data: &[u8]) -> String {
    String::from_utf8(data.to_vec()).unwrap()
}

fn name(data: &str) -> PdfObject {
    PdfObject::Identifier(data.as_bytes().to_vec())
}

fn text(data: &str) -> PdfObject {
    PdfObject::String(data.as_bytes().to_vec())
}

fn number(data: &str) -> PdfObject {
    let value = parse_real(data.as_bytes()).unwrap();
    let written: f64 = data.parse().unwrap();
    let mut digits = String::new();
    for d in value.digits().iter() {
        digits.push((b'0' + d) as char);
    }
    let mantissa: f64 = digits.parse().unwrap();
    let sign = if value.negative() { -1.0 } else { 1.0 };
    assert_eq!(sign * mantissa / 10f64.powi(value.scale() as i32), written);
    PdfObject::Float(value)
}

fn pointer(object: u64, generation: u64) -> PdfObject {
    PdfObject::Reference(Key::new(object, generation))
}

fn table(entries: &[(&str, PdfObject)]) -> PdfDictionary {
    PdfDictionary {
        data: entries
            .iter()
            .map(|(k, v)| Entry { key: k.as_bytes().to_vec(), value: v.clone() })
            .collect(),
    }
}

fn object_test(data: &str, expected: PdfObject, remaining: &str) {
    let result = object(data.as_bytes()).unwrap();
    assert_eq!(result.data, expected);
    assert_eq!(from_bytes(result.remaining).as_str(), remaining);
}

#[test]
fn test_object() {
    object_test("true", PdfObject::Boolean(true), "");
    object_test("false", PdfObject::Boolean(false), "");
    object_test("false true", PdfObject::Boolean(false), " true");
    object_test("549", PdfObject::Integer(549), "");
    object_test("549 1", PdfObject::Integer(549), " 1");
    object_test("3.14", number("3.14"), "");
    object_test("3.14 2", number("3.14"), " 2");
    object_test("(Ralph)", text("Ralph"), "");
    object_test("(Ralph) (test)", text("Ralph"), " (test)");
    object_test("1 0 R", pointer(1, 0), "");
    object_test("/SomeName", name("SomeName"), "");
    object_test("/SomeName (Ralph)", name("SomeName"), " (Ralph)");
    object_test("null", PdfObject::Null, "");
    object_test("[null]", PdfObject::Array(vec![PdfObject::Null]), "");
    object_test(
        "[549 3.14 false (Ralph) /SomeName]",
        PdfObject::Array(vec![
            PdfObject::Integer(549),
            number("3.14"),
            PdfObject::Boolean(false),
            text("Ralph"),
            name("SomeName"),
        ]),
        "",
    );
    object_test(
        "<</A /B/C[]>>",
        PdfObject::Dictionary(table(&[("A", name("B")), ("C", PdfObject::Array(vec![]))])),
        "",
    );
}

#[test]
fn reference_is_tried_before_integer() {
    object_test("1 0 R", pointer(1, 0), "");
    object_test("1 0", PdfObject::Integer(1), " 0");
}

fn array_test(data: &str, expected: Vec<PdfObject>, remaining: &str) {
    let result = array(data.as_bytes()).unwrap();
    assert_eq!(result.data, expected);
    assert_eq!(from_bytes(result.remaining).as_str(), remaining);
}

#[test]
fn test_array() {
    array_test("[[]]", vec![PdfObject::Array(vec![])], "");
    array_test("[[1]]", vec![PdfObject::Array(vec![PdfObject::Integer(1)])], "");
    array_test("[/test] a", vec![name("test")], " a");
    array_test(
        "[\n\
                /test] a",
        vec![name("test")],
        " a",
    );
    array_test(
        "[549 3.14 false (Ralph) /SomeName]",
        vec![
            PdfObject::Integer(549),
            number("3.14"),
            PdfObject::Boolean(false),
            text("Ralph"),
            name("SomeName"),
        ],
        "",
    );
}

fn dictionary_test(data: &str, expected: &[(&str, PdfObject)], remaining: &str) {
    let result = dictionary(data.as_bytes()).unwrap();
    let expected_map = table(expected);
    assert_eq!(result.data, expected_map);
    assert_eq!(from_bytes(result.remaining).as_str(), remaining);
}

#[test]
fn test_dictionary() {
    dictionary_test("<<>>", &[], "");
    dictionary_test(
        "<<\n\
            >>",
        &[],
        "",
    );
    dictionary_test("<</A /B>>", &[("A", name("B"))], "");
    dictionary_test(
        "<< /Type /Example
            /Subtype /DictionaryExample
            /Version 0.01
            /IntegerItem 12
            /StringItem (a string)
            /ReferenceItem 12 0 R
            /Subdictionary <<
                    /Item1 0.4
                    /Item2 true
                    /LastItem (not!)
                    /VeryLastItem (OK)
                >>
            >>",
        &[
            ("Type", name("Example")),
            ("Subtype", name("DictionaryExample")),
            ("Version", number("0.01")),
            ("IntegerItem", PdfObject::Integer(12)),
            ("StringItem", text("a string")),
            ("ReferenceItem", pointer(12, 0)),
            (
                "Subdictionary",
                PdfObject::Dictionary(table(&[
                    ("Item1", number("0.4")),
                    ("Item2", PdfObject::Boolean(true)),
                    ("LastItem", text("not!")),
                    ("VeryLastItem", text("OK")),
                ])),
            ),
        ],
        "",
    );
}

fn reference_test(data: &str, expected: Key, remaining: &str) {
    let result = reference(data.as_bytes()).unwrap();
    assert_eq!(result.data, expected);
    assert_eq!(from_bytes(result.remaining).as_str(), remaining);
}

#[test]
fn test_reference() {
    assert_eq!(reference("0 0 R".as_bytes()), Res::NotFound);
    assert_eq!(reference("-1 0 R".as_bytes()), Res::NotFound);
    assert_eq!(reference("1 0 M".as_bytes()), Res::NotFound);

    reference_test("17 0 R", Key::new(17, 0), "");
    reference_test("1 0 R", Key::new(1, 0), "");
    reference_test("1 10 R", Key::new(1, 10), "");
    reference_test("1 10 Rtest", Key::new(1, 10), "test");
}

fn definition_test(data: &str, expected: Definition, remaining: &str) {
    let result = definition(data.as_bytes()).unwrap();
    assert_eq!(result.data, expected);
    assert_eq!(from_bytes(result.remaining).as_str(), remaining);
}

#[test]
fn test_definition() {
    definition_test(
        "12 0 obj
                (Brilling)
            endobj",
        Definition::new(Key::new(12, 0), text("Brilling")),
        "",
    );
}

#[test]
fn a_failure_inside_an_object_ends_the_choice() {
    assert_eq!(object(b"(a(b)"), Res::Error(Error::UnbalancedString));
    assert_eq!(object(b"[1 (a(b)"), Res::Error(Error::UnbalancedString));
    assert_eq!(object(b"<</A (a(b)"), Res::Error(Error::UnbalancedString));
    assert_eq!(object(b"/A#"), Res::Error(Error::InvalidName));
    assert_eq!(object(b"[1 2"), Res::NotFound);
    assert_eq!(object(b"<</A 1"), Res::NotFound);
    assert_eq!(object(b"<</A >>"), Res::NotFound);
    assert_eq!(object(b"<4x>"), Res::NotFound);
    assert_eq!(object(b"endobj"), Res::NotFound);
    assert_eq!(object(b""), Res::NotFound);
}

#[test]
fn a_later_entry_of_a_dictionary_counts() {
    let found = dictionary(b"<</A 1 /A 2>>").unwrap().data;
    assert_eq!(found.data.len(), 2);
    assert_eq!(found.data[1].value, PdfObject::Integer(2));
}

#[test]
fn copies_are_equal_to_what_they_copy() {
    let source = object(b"[1 <</A [2 (x) /N 3.5 4 0 R null true]>>]").unwrap().data;
    assert_eq!(source.duplicate(), source);
    assert_eq!(source.clone(), source);
}
