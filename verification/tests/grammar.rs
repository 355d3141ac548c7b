use std::collections::HashMap;

use pdf::decimal::{float, parse_real, Real};
use pdf::error::Error;
use pdf::header::{eof, startxref, string_comment, version, Version};
use pdf::lexer::{boolean, comment, is_whitespace, until_eol, Found, Res};
use pdf::number::{fixed_integer, integer};
use pdf::object::{Entry, Key, PdfDictionary, PdfObject};
use pdf::parse::{array, definition, dictionary, object, reference, Definition};
use pdf::stream::{stream, Numbered, Objects, Unresolved};
use pdf::strings::{
    hex_string, identifier, identifier_escape, literal_string, octal_char, string, string_escape,
};
use pdf::xref::{trailer, xref_entry, xref_table, Xref, XrefEntry, XrefType};

fn text_of(data: &[u8]) -> String {
    String::from_utf8(data.to_vec()).unwrap()
}

/// The text that was found, and the text that remains.
fn as_text(found: Res<Vec<u8>>) -> (String, String) {
    let Found { data, remaining } = found.unwrap();
    let read = Res::string(data, remaining).unwrap();
    (read.data, text_of(read.remaining))
}

fn check_text(found: Res<Vec<u8>>, expected: &str, remaining: &str) {
    assert_eq!(as_text(found), (expected.to_string(), remaining.to_string()));
}

fn check<T: PartialEq + std::fmt::Debug>(found: Res<T>, expected: T, remaining: &str) {
    let Found { data, remaining: rest } = found.unwrap();
    assert_eq!(data, expected);
    assert_eq!(text_of(rest), remaining);
}

fn value(number: &Real) -> f64 {
    let digits: String = number.digits().iter().map(|d| (b'0' + d) as char).collect();
    let (whole, fraction) = digits.split_at(digits.len() - number.scale());
    let sign = if number.negative() { "-" } else { "" };
    format!("{}{}.{}", sign, whole, fraction).parse().unwrap()
}

fn name(data: &str) -> PdfObject {
    PdfObject::Identifier(data.as_bytes().to_vec())
}

fn text(data: &str) -> PdfObject {
    PdfObject::String(data.as_bytes().to_vec())
}

fn number(data: &str) -> PdfObject {
    PdfObject::Float(parse_real(data.as_bytes()).unwrap())
}

fn pointer(object: u64, generation: u64) -> PdfObject {
    PdfObject::Reference(Key::new(object, generation))
}

fn table(entries: Vec<(&str, PdfObject)>) -> PdfDictionary {
    PdfDictionary::new(
        entries
            .into_iter()
            .map(|(k, v)| Entry { key: k.as_bytes().to_vec(), value: v })
            .collect(),
    )
}

#[test]
fn parser_test_is_whitespace() {
    for byte in [b' ', b'\t', b'\r', b'\n', b'\0'] {
        assert!(is_whitespace(byte));
    }
    for byte in [b'a', b'b'] {
        assert!(!is_whitespace(byte));
    }
}

#[test]
fn parser_test_until_eol() {
    let cases = [
        ("\r", "\r", ""),
        ("\n", "", ""),
        ("\ntest", "", "test"),
        ("test\nasd", "test", "asd"),
        ("test\r\nasd", "test", "asd"),
        ("test", "test", ""),
    ];
    for (data, expected, remaining) in cases {
        check_text(until_eol(data.as_bytes()), expected, remaining);
    }
}

#[test]
fn parser_test_comment() {
    let cases = [
        ("%this is a comment", "this is a comment", ""),
        ("%this is% a comment", "this is% a comment", ""),
        ("%comment\nnot comment", "comment", "not comment"),
        ("%\nnot comment", "", "not comment"),
    ];
    for (data, expected, remaining) in cases {
        check(string_comment(data.as_bytes()), expected.to_string(), remaining);
        check_text(comment(data.as_bytes()), expected, remaining);
    }
    for data in ["not a comment", "a%nope", ""] {
        assert_eq!(Res::NotFound, comment(data.as_bytes()));
        assert_eq!(Res::NotFound, string_comment(data.as_bytes()));
    }
}

#[test]
fn parser_test_boolean_object() {
    for data in ["either", "", "%true"] {
        assert_eq!(boolean(data.as_bytes()), Res::NotFound);
    }
    check(boolean(b"true"), true, "");
    check(boolean(b"false"), false, "");
    check(boolean(b"trueasd"), true, "asd");
    check(boolean(b"true%test"), true, "%test");
}

#[test]
fn parser_test_integer_object() {
    assert_eq!(integer(b"123.123"), Res::NotFound);
    check(integer(b"123abc"), 123, "abc");
    check(integer(b"123"), 123, "");
    check(integer(b"+123"), 123, "");
    check(integer(b"-123"), -123, "");
    check(integer(b"0"), 0, "");
}

#[test]
fn parser_test_float() {
    let cases = [
        ("123abc", 123.0, "abc"),
        ("123", 123.0, ""),
        ("+123", 123.0, ""),
        ("-123", -123.0, ""),
        ("123.123", 123.123, ""),
        ("123.0", 123.0, ""),
        (".123", 0.123, ""),
        ("0", 0.0, ""),
    ];
    for (data, expected, remaining) in cases {
        let found = float(data.as_bytes()).unwrap();
        assert_eq!(value(&found.data), expected);
        assert_eq!(text_of(found.remaining), remaining);
    }
}

#[test]
fn parser_test_octal_char() {
    check(octal_char(b"000"), 0, "");
    check(octal_char(b"010"), 0x08, "");
    check(octal_char(b"040"), 0x20, "");
    check(octal_char(b"175"), b'}', "");
    check(octal_char(b"175xxx"), b'}', "xxx");
}

#[test]
fn parser_test_string_escape() {
    let cases = [
        // Standard escapes
        ("\\n", '\n', ""),
        ("\\r", '\r', ""),
        ("\\nabc", '\n', "abc"),
        // Octal escapes
        ("\\000", '\0', ""),
        ("\\00", '\0', ""),
        ("\\0", '\0', ""),
        ("\\0R", '\0', "R"),
        ("\\53", '+', ""),
        ("\\53X", '+', "X"),
        ("\\053", '+', ""),
        ("\\175", '}', ""),
        // Other characters remain as is
        ("\\H", 'H', ""),
        ("\\A", 'A', ""),
        // eol escapes to space
        ("\\\n", ' ', ""),
        ("\\\r\n", ' ', ""),
        ("\\ ", ' ', ""),
    ];
    for (data, expected, remaining) in cases {
        check(string_escape(data.as_bytes()), expected as u8, remaining);
    }
}

#[test]
fn parser_test_literal_string() {
    let cases = [
        ("()", "", ""),
        ("(test)", "test", ""),
        ("(test\\n)", "test\n", ""),
        ("(test\\\nasd)", "test asd", ""),
        ("(test)rest", "test", "rest"),
        ("(test\\tred q)", "test\tred q", ""),
        ("(test\\\r\nfoo\\\nbar)", "test foo bar", ""),
        ("(🎉)", "🎉", ""),
        ("(\\🎉)", "🎉", ""),
    ];
    for (data, expected, remaining) in cases {
        check_text(literal_string(data.as_bytes()), expected, remaining);
    }
}

#[test]
fn parser_test_hex_string() {
    let cases = [
        ("<>", "", ""),
        ("<0>", "\0", ""),
        ("<0>test", "\0", "test"),
        ("<54 45 53 54>", "TEST", ""),
        ("<54 45\t53\n54>", "TEST", ""),
        ("<707>", "pp", ""),
        ("<F09F8E89>", "🎉", ""),
        ("<4E6F762073686D6F7A206B6120706F702E>", "Nov shmoz ka pop.", ""),
        ("<F240D629CD72348F>", "ERROR: Unparsable string.", ""),
    ];
    for (data, expected, remaining) in cases {
        check_text(hex_string(data.as_bytes()), expected, remaining);
    }
}

#[test]
fn parser_test_string() {
    check_text(string("<F09F8E89>".as_bytes()), "🎉", "");
    check_text(string("(🎉)".as_bytes()), "🎉", "");
    check_text(
        string(
            "(Strings may contain balanced parentheses ( ) and
special characters (*!&}^% and so on).)"
                .as_bytes(),
        ),
        "Strings may contain balanced parentheses ( ) and\nspecial characters (*!&}^% and so on).",
        "",
    );
}

#[test]
fn parser_test_identifier_escape() {
    check(identifier_escape(b"#28"), b'(', "");
    check(identifier_escape(b"#29"), b')', "");
    check(identifier_escape(b"#20"), b' ', "");
}

#[test]
fn parser_test_identifier() {
    // 7.3.5, Table 4
    let cases = [
        ("/Name1", "Name1"),
        ("/ASomewhatLongerName", "ASomewhatLongerName"),
        ("/A;Name_With-Various***Characters?", "A;Name_With-Various***Characters?"),
        ("/1.2", "1.2"),
        ("/$$", "$$"),
        ("/@pattern", "@pattern"),
        ("/.notdef", ".notdef"),
        ("/lime#20Green", "lime Green"),
        ("/paired#28#29parentheses", "paired()parentheses"),
        ("/The_Key_of_F#23_Minor", "The_Key_of_F#_Minor"),
        ("/A#42", "AB"),
    ];
    for (data, expected) in cases {
        check_text(identifier(data.as_bytes()), expected, "");
    }
}

#[test]
fn parser_test_object() {
    check(object(b"true"), PdfObject::Boolean(true), "");
    check(object(b"false"), PdfObject::Boolean(false), "");
    check(object(b"false true"), PdfObject::Boolean(false), " true");
    check(object(b"549"), PdfObject::Integer(549), "");
    check(object(b"549 1"), PdfObject::Integer(549), " 1");
    check(object(b"3.14"), number("3.14"), "");
    check(object(b"3.14 2"), number("3.14"), " 2");
    check(object(b"(Ralph)"), text("Ralph"), "");
    check(object(b"(Ralph) (test)"), text("Ralph"), " (test)");
    check(object(b"1 0 R"), pointer(1, 0), "");
    check(object(b"/SomeName"), name("SomeName"), "");
    check(object(b"/SomeName (Ralph)"), name("SomeName"), " (Ralph)");
    check(object(b"null"), PdfObject::Null, "");
    check(object(b"[null]"), PdfObject::Array(vec![PdfObject::Null]), "");
    check(
        object(b"[549 3.14 false (Ralph) /SomeName]"),
        PdfObject::Array(vec![
            PdfObject::Integer(549),
            number("3.14"),
            PdfObject::Boolean(false),
            text("Ralph"),
            name("SomeName"),
        ]),
        "",
    );
    check(
        object(b"<</A /B/C[]>>"),
        PdfObject::Dictionary(table(vec![("A", name("B")), ("C", PdfObject::Array(vec![]))])),
        "",
    );
}

#[test]
fn parser_test_array() {
    check(array(b"[[]]"), vec![PdfObject::Array(vec![])], "");
    check(array(b"[[1]]"), vec![PdfObject::Array(vec![PdfObject::Integer(1)])], "");
    check(array(b"[/test] a"), vec![name("test")], " a");
    check(array(b"[\n/test] a"), vec![name("test")], " a");
    check(
        array(b"[549 3.14 false (Ralph) /SomeName]"),
        vec![
            PdfObject::Integer(549),
            number("3.14"),
            PdfObject::Boolean(false),
            text("Ralph"),
            name("SomeName"),
        ],
        "",
    );
}

#[test]
fn parser_test_dictionary() {
    check(dictionary(b"<<>>"), table(vec![]), "");
    check(dictionary(b"<<\n>>"), table(vec![]), "");
    check(dictionary(b"<</A /B>>"), table(vec![("A", name("B"))]), "");
    let found = dictionary(
        "<< /Type /Example
            /Subtype /DictionaryExample
            /Version 0.01
            /IntegerItem 12
            /StringItem (a string)
            /ReferenceItem 12 0 R
            /Subdictionary <<
                    /Item1 0.4
                    /Item2 true
                    /LastItem (not!)
                    /VeryLastItem (OK)
                >>
            >>"
        .as_bytes(),
    )
    .unwrap();
    assert_eq!(found.remaining, b"");
    let found = found.data;
    assert_eq!(found.data.len(), 7);
    assert_eq!(found.get("Type"), Some(&name("Example")));
    assert_eq!(found.get("Subtype"), Some(&name("DictionaryExample")));
    assert_eq!(found.get("Version"), Some(&number("0.01")));
    assert_eq!(found.get("IntegerItem"), Some(&PdfObject::Integer(12)));
    assert_eq!(found.get("StringItem"), Some(&text("a string")));
    assert_eq!(found.get("ReferenceItem"), Some(&pointer(12, 0)));
    let inner = match found.get("Subdictionary") {
        Some(PdfObject::Dictionary(d)) => d,
        _ => panic!("no dictionary"),
    };
    assert_eq!(inner.data.len(), 4);
    assert_eq!(inner.get("Item1"), Some(&number("0.4")));
    assert_eq!(inner.get("Item2"), Some(&PdfObject::Boolean(true)));
    assert_eq!(inner.get("LastItem"), Some(&text("not!")));
    assert_eq!(inner.get("VeryLastItem"), Some(&text("OK")));
    assert_eq!(inner.get("Item3"), None);
}

#[test]
fn parser_test_reference() {
    for data in ["0 0 R", "-1 0 R", "1 0 M"] {
        assert_eq!(reference(data.as_bytes()), Res::NotFound);
    }
    check(reference(b"17 0 R"), Key::new(17, 0), "");
    check(reference(b"1 0 R"), Key::new(1, 0), "");
    check(reference(b"1 10 R"), Key::new(1, 10), "");
    check(reference(b"1 10 Rtest"), Key::new(1, 10), "test");
}

#[test]
fn parser_test_definition() {
    check(
        definition(
            "12 0 obj
                (Brilling)
            endobj"
                .as_bytes(),
        ),
        Definition::new(Key::new(12, 0), text("Brilling")),
        "",
    );
}

#[test]
fn parser_test_stream() {
    let cases = [
        "<< /Length 12 >> stream\n123456789012\nendstream",
        "<< /Length 12 >> stream\n123456789012endstream",
    ];
    for data in cases {
        let found = stream(data.as_bytes(), &Unresolved).unwrap();
        assert_eq!(text_of(&found.data.data), "123456789012");
        assert_eq!(found.remaining, b"");
    }
    let lengths = Objects { objects: vec![Numbered { number: 8, object: PdfObject::Integer(12) }] };
    let found = stream(
        "<< /Length 8 0 R >> % Reference length\nstream\n123456789012\nendstream".as_bytes(),
        &lengths,
    )
    .unwrap();
    assert_eq!(text_of(&found.data.data), "123456789012");
    assert_eq!(found.remaining, b"");
}

#[test]
fn parser_test_version() {
    let known = [
        ("%PDF-1.0", Version::V1),
        ("%PDF-1.1", Version::V1_1),
        ("%PDF-1.2", Version::V1_2),
        ("%PDF-1.3", Version::V1_3),
        ("%PDF-1.4", Version::V1_4),
        ("%PDF-1.5", Version::V1_5),
        ("%PDF-1.6", Version::V1_6),
        ("%PDF-1.7", Version::V1_7),
        ("%PDF-1.8", Version::V1_8),
        ("%PDF-1.9", Version::newer("PDF-1.9")),
    ];
    for (data, expected) in known {
        check(version(data.as_bytes()), expected, "");
    }
}

#[test]
fn parser_test_fixed_integer() {
    check(fixed_integer(b"00000", 5), 0, "");
    check(fixed_integer(b"00000 ", 5), 0, " ");
    check(fixed_integer(b"12345", 5), 12345, "");
    check(fixed_integer(b"0000000000", 10), 0, "");
    check(fixed_integer(b"1234567890", 10), 1234567890, "");
}

#[test]
fn parser_test_xref() {
    check(
        xref_entry(b"1234567890 12345 f\r\n"),
        XrefEntry::new(1234567890, 12345, XrefType::Free),
        "",
    );
    check(xref_entry(b"0000000003 00000 n\r\n"), XrefEntry::new(3, 0, XrefType::InUse), "");
}

#[test]
fn parser_test_xref_table() {
    assert_eq!(xref_table(b"xref"), Res::Error(Error::MalformedXref));
    let first: HashMap<u64, Xref> = vec![
        Xref::new(3, 0, 65535, XrefType::Free),
        Xref::new(17, 1, 0, XrefType::InUse),
        Xref::new(81, 2, 0, XrefType::InUse),
        Xref::new(0, 3, 7, XrefType::Free),
        Xref::new(331, 4, 0, XrefType::InUse),
        Xref::new(409, 5, 0, XrefType::InUse),
    ]
    .into_iter()
    .map(|x| (x.key.object, x))
    .collect();
    check(
        xref_table(
            b"xref\n0 6\n0000000003 65535 f\r\n0000000017 00000 n\r\n0000000081 00000 n\r\n0000000000 00007 f\r\n0000000331 00000 n\r\n0000000409 00000 n\r\n",
        ),
        first,
        "",
    );
    let second: HashMap<u64, Xref> = vec![
        Xref::new(0, 0, 65535, XrefType::Free),
        Xref::new(25325, 3, 0, XrefType::InUse),
        Xref::new(25518, 23, 2, XrefType::InUse),
        Xref::new(25635, 24, 0, XrefType::InUse),
        Xref::new(25777, 30, 0, XrefType::InUse),
    ]
    .into_iter()
    .map(|x| (x.key.object, x))
    .collect();
    check(
        xref_table(
            b"xref\n0 1\n0000000000 65535 f\r\n3 1\n0000025325 00000 n\r\n23 2\n0000025518 00002 n\r\n0000025635 00000 n\r\n30 1\n0000025777 00000 n\r\n",
        ),
        second,
        "",
    );
}

#[test]
fn parser_test_eof() {
    check(eof(b"%%EOF"), (), "");
    check(eof(b"%%EOF\n"), (), "");
}

#[test]
fn parser_test_startxref() {
    check(startxref(b"startxref\n18799"), 18799, "");
    check(startxref(b"startxref\n0"), 0, "");
}

#[test]
fn parser_test_trailer() {
    let found = trailer(b"trailer\n<< /Size 95 /Root 1 0 R /Info 2 0 R\n>>").unwrap();
    assert_eq!(found.remaining, b"");
    assert_eq!(found.data.data.len(), 3);
    assert_eq!(found.data.get("Root"), Some(&pointer(1, 0)));
    assert_eq!(found.data.get("Size"), Some(&PdfObject::Integer(95)));
    assert_eq!(found.data.get("Info"), Some(&pointer(2, 0)));
}
