use pdf::decimal::{float, Real};
use pdf::error::Error;
use pdf::header::{eof, startxref, string_comment, version, Version};
use pdf::lexer::{boolean, comment, is_whitespace, until_eol, Res};
use pdf::number::{binary_integer, fixed_integer, integer};
use pdf::strings::{
    hex_string, identifier, identifier_escape, literal_string, octal_char, string, string_escape,
};

const ASCII_BACKSPACE: u8 = 0x08;

fn from_bytes(data: &[u8]) -> String {
    String::from_utf8(data.to_vec()).unwrap()
}

fn to_f64(value: &Real) -> f64 {
    let mut text = String::new();
    if value.negative() {
        text.push('-');
    }
    let digits = value.digits();
    let point = digits.len() - value.scale();
    for (i, d) in digits.iter().enumerate() {
        if i == point {
            text.push('.');
        }
        text.push((b'0' + d) as char);
    }
    text.parse().unwrap()
}

#[test]
fn test_is_whitespace() {
    assert!(is_whitespace(' ' as u8));
    assert!(is_whitespace('\t' as u8));
    assert!(is_whitespace('\r' as u8));
    assert!(is_whitespace('\n' as u8));
    assert!(is_whitespace('\0' as u8));
    assert!(!is_whitespace('a' as u8));
    assert!(!is_whitespace('b' as u8));
}

fn until_eol_test(data: &str, expected: &str, remaining: &str) {
    let result = until_eol(data.as_bytes()).unwrap();

    assert_eq!(from_bytes(&result.data[..]).as_str(), expected);
    assert_eq!(from_bytes(result.remaining).as_str(), remaining);
}

#[test]
fn test_until_eol() {
    until_eol_test("\r", "\r", "");
    until_eol_test("\n", "", "");
    until_eol_test("\ntest", "", "test");
    until_eol_test("test\nasd", "test", "asd");
    until_eol_test("test\r\nasd", "test", "asd");
    until_eol_test("test", "test", "");
}

fn string_comment_test(data: &str, expected: &str, remaining: &str) {
    let result = string_comment(data.as_bytes()).unwrap();
    assert_eq!(result.data.to_string(), expected);
    assert_eq!(from_bytes(result.remaining).as_str(), remaining);
}

#[test]
fn test_comment() {
    string_comment_test("%this is a comment", "this is a comment", "");
    string_comment_test("%this is% a comment", "this is% a comment", "");
    string_comment_test("%comment\nnot comment", "comment", "not comment");
    string_comment_test("%\nnot comment", "", "not comment");

    assert_eq!(Res::NotFound, comment("not a comment".as_bytes()));
    assert_eq!(Res::NotFound, comment("a%nope".as_bytes()));
    assert_eq!(Res::NotFound, comment("".as_bytes()));
}

fn boolean_test(data: &str, expected: bool, remaining: &str) {
    let result = boolean(data.as_bytes()).unwrap();
    assert_eq!(result.data, expected);
    assert_eq!(from_bytes(result.remaining).as_str(), remaining);
}

#[test]
fn test_boolean_object() {
    assert_eq!(boolean("either".as_bytes()), Res::NotFound);
    assert_eq!(boolean("".as_bytes()), Res::NotFound);
    assert_eq!(boolean("%true".as_bytes()), Res::NotFound);

    boolean_test("true", true, "");
    boolean_test("false", false, "");
    boolean_test("trueasd", true, "asd");
    boolean_test("true%test", true, "%test");
}

fn integer_test(data: &str, expected: i64, remaining: &str) {
    let result = integer(data.as_bytes()).unwrap();
    assert_eq!(result.data, expected);
    assert_eq!(from_bytes(result.remaining).as_str(), remaining);
}

#[test]
fn test_integer_object() {
    assert_eq!(integer("123.123".as_bytes()), Res::NotFound);

    integer_test("123abc", 123, "abc");
    integer_test("123", 123, "");
    integer_test("+123", 123, "");
    integer_test("-123", -123, "");
    integer_test("0", 0, "");
}

fn float_test(data: &str, expected: f64, remaining: &str) {
    let result = float(data.as_bytes()).unwrap();
    assert_eq!(to_f64(&result.data), expected);
    assert_eq!(from_bytes(result.remaining).as_str(), remaining);
}

#[test]
fn test_float() {
    float_test("123abc", 123.0, "abc");
    float_test("123", 123.0, "");
    float_test("+123", 123.0, "");
    float_test("-123", -123.0, "");
    float_test("123.123", 123.123, "");
    float_test("123.0", 123.0, "");
    float_test(".123", 0.123, "");
    float_test("0", 0.0, "");
}

fn octal_char_test(data: &str, expected: u8, remaining: &str) {
    let result = octal_char(data.as_bytes()).unwrap();
    assert_eq!(result.data, expected);
    assert_eq!(from_bytes(result.remaining).as_str(), remaining);
}

#[test]
fn test_octal_char() {
    octal_char_test("000", 0, "");
    octal_char_test("010", ASCII_BACKSPACE, "");
    octal_char_test("040", 0x20, "");
    octal_char_test("175", '}' as u8, "");
    octal_char_test("175xxx", '}' as u8, "xxx");
}

fn string_escape_test(data: &str, expected: char, remaining: &str) {
    let result = string_escape(data.as_bytes()).unwrap();
    assert_eq!(result.data as char, expected);
    assert_eq!(from_bytes(result.remaining).as_str(), remaining);
}

#[test]
fn test_string_escape() {
    // Standard escapes
    string_escape_test("\\n", '\n', "");
    string_escape_test("\\r", '\r', "");
    string_escape_test("\\nabc", '\n', "abc");

    // Octal escapes
    string_escape_test("\\000", '\0', "");
    string_escape_test("\\00", '\0', "");
    string_escape_test("\\0", '\0', "");
    string_escape_test("\\0R", '\0', "R");
    string_escape_test("\\53", '+', "");
    string_escape_test("\\53X", '+', "X");
    string_escape_test("\\053", '+', "");
    string_escape_test("\\175", '}', "");

    // Other characters remain as is
    string_escape_test("\\H", 'H', "");
    string_escape_test("\\A", 'A', "");

    // eol escapes to space
    string_escape_test("\\\n", ' ', "");
    string_escape_test("\\\r\n", ' ', "");
    string_escape_test("\\ ", ' ', "");
}

fn literal_string_test(data: &str, expected: &str, remaining: &str) {
    let result = literal_string(data.as_bytes()).unwrap();
    assert_eq!(std::str::from_utf8(&result.data).unwrap(), expected);
    assert_eq!(from_bytes(result.remaining).as_str(), remaining);
}

#[test]
fn test_literal_string() {
    literal_string_test("()", "", "");
    literal_string_test("(test)", "test", "");
    literal_string_test("(test\\n)", "test\n", "");
    literal_string_test("(test\\\nasd)", "test asd", "");
    literal_string_test("(test)rest", "test", "rest");
    literal_string_test("(test\\tred q)", "test\tred q", "");
    literal_string_test("(test\\\r\nfoo\\\nbar)", "test foo bar", "");
    literal_string_test("(🎉)", "🎉", "");
    literal_string_test("(\\🎉)", "🎉", "");
}

fn hex_string_test(data: &str, expected: &str, remaining: &str) {
    let result = hex_string(data.as_bytes()).unwrap();
    assert_eq!(std::str::from_utf8(&result.data).unwrap(), expected);
    assert_eq!(from_bytes(result.remaining).as_str(), remaining);
}

#[test]
fn test_hex_string() {
    hex_string_test("<>", "", "");
    hex_string_test("<0>", "\0", "");
    hex_string_test("<0>test", "\0", "test");
    hex_string_test("<54 45 53 54>", "TEST", "");
    hex_string_test("<54 45\t53\n54>", "TEST", "");
    hex_string_test("<707>", "pp", "");
    hex_string_test("<F09F8E89>", "🎉", "");
    hex_string_test("<4E6F762073686D6F7A206B6120706F702E>", "Nov shmoz ka pop.", "");
}

fn string_test(data: &str, expected: &str, remaining: &str) {
    let result = string(data.as_bytes()).unwrap();
    assert_eq!(std::str::from_utf8(&result.data).unwrap(), expected);
    assert_eq!(from_bytes(result.remaining).as_str(), remaining);
}

#[test]
fn test_string() {
    string_test("<F09F8E89>", "🎉", "");
    string_test("(🎉)", "🎉", "");
    string_test(
        "(Strings may contain balanced parentheses ( ) and
special characters (*!&}^% and so on).)",
        "Strings may contain balanced parentheses ( ) and\nspecial characters (*!&}^% and so on).",
        "",
    );
}

fn identifier_escape_test(data: &str, expected: char, remaining: &str) {
    let result = identifier_escape(data.as_bytes()).unwrap();
    assert_eq!(result.data as char, expected);
    assert_eq!(from_bytes(result.remaining).as_str(), remaining);
}

#[test]
fn test_identifier_escape() {
    identifier_escape_test("#28", '(', "");
    identifier_escape_test("#29", ')', "");
    identifier_escape_test("#20", ' ', "");
}

fn identifier_test(data: &str, expected: &str, remaining: &str) {
    let result = identifier(data.as_bytes()).unwrap();
    assert_eq!(from_bytes(&result.data), expected);
    assert_eq!(from_bytes(result.remaining).as_str(), remaining);
}

#[test]
fn test_identifier() {
    // 7.3.5, Table 4
    identifier_test("/Name1", "Name1", "");
    identifier_test("/ASomewhatLongerName", "ASomewhatLongerName", "");
    identifier_test(
        "/A;Name_With-Various***Characters?",
        "A;Name_With-Various***Characters?",
        "",
    );
    identifier_test("/1.2", "1.2", "");
    identifier_test("/$$", "$$", "");
    identifier_test("/@pattern", "@pattern", "");
    identifier_test("/.notdef", ".notdef", "");
    identifier_test("/lime#20Green", "lime Green", "");
    identifier_test("/paired#28#29parentheses", "paired()parentheses", "");
    identifier_test("/The_Key_of_F#23_Minor", "The_Key_of_F#_Minor", "");
    identifier_test("/A#42", "AB", "");
}

fn version_test(data: &str, expected: Version, remaining: &str) {
    let result = version(data.as_bytes()).unwrap();
    assert_eq!(result.data, expected);
    assert_eq!(from_bytes(result.remaining).as_str(), remaining);
}

#[test]
fn test_version() {
    version_test("%PDF-1.0", Version::V1, "");
    version_test("%PDF-1.1", Version::V1_1, "");
    version_test("%PDF-1.2", Version::V1_2, "");
    version_test("%PDF-1.3", Version::V1_3, "");
    version_test("%PDF-1.4", Version::V1_4, "");
    version_test("%PDF-1.5", Version::V1_5, "");
    version_test("%PDF-1.6", Version::V1_6, "");
    version_test("%PDF-1.7", Version::V1_7, "");
    version_test("%PDF-1.8", Version::V1_8, "");
    version_test("%PDF-1.9", Version::newer("PDF-1.9"), "");
}

fn fixed_integer_5(data: &[u8]) -> Res<'_, u64> {
    fixed_integer(data, 5)
}

fn fixed_integer_5_test(data: &str, expected: u64, remaining: &str) {
    let result = fixed_integer_5(data.as_bytes()).unwrap();
    assert_eq!(result.data, expected);
    assert_eq!(from_bytes(result.remaining).as_str(), remaining);
}

fn fixed_integer_10(data: &[u8]) -> Res<'_, u64> {
    fixed_integer(data, 10)
}

fn fixed_integer_10_test(data: &str, expected: u64, remaining: &str) {
    let result = fixed_integer_10(data.as_bytes()).unwrap();
    assert_eq!(result.data, expected);
    assert_eq!(from_bytes(result.remaining).as_str(), remaining);
}

#[test]
fn test_fixed_integer() {
    fixed_integer_5_test("00000", 0, "");
    fixed_integer_5_test("00000 ", 0, " ");
    fixed_integer_5_test("12345", 12345, "");
    fixed_integer_10_test("0000000000", 0, "");
    fixed_integer_10_test("1234567890", 1234567890, "");
}

fn eof_test(data: &str, remaining: &str) {
    let result = eof(data.as_bytes()).unwrap();
    assert_eq!(result.data, ());
    assert_eq!(from_bytes(result.remaining).as_str(), remaining);
}

#[test]
fn test_eof() {
    eof_test("%%EOF", "");
    eof_test("%%EOF\n", "");
}

fn startxref_test(data: &str, expected: u64, remaining: &str) {
    let result = startxref(data.as_bytes()).unwrap();
    assert_eq!(result.data, expected);
    assert_eq!(from_bytes(result.remaining).as_str(), remaining);
}

#[test]
fn test_startxref() {
    startxref_test(
        "startxref\n\
                18799",
        18799,
        "",
    );
    startxref_test(
        "startxref\n\
                0",
        0,
        "",
    );
}

#[test]
fn test_binary_integer() {
    assert_eq!(binary_integer(&[0, 0xFF], 2).unwrap().data, 0xFF);
    assert_eq!(binary_integer(&[0xFF, 0x00], 2).unwrap().data, 0xFF00);
}

#[test]
fn unbalanced_literal_string_is_an_error() {
    let result = literal_string(b"(a(b)c)");
    assert_eq!(result.unwrap().data, b"a(b)c".to_vec());
    assert_eq!(literal_string(b"(a(b)"), Res::Error(Error::UnbalancedString));
    assert_eq!(literal_string(b"("), Res::Error(Error::UnbalancedString));
    assert_eq!(string(b"(a(b)"), Res::Error(Error::UnbalancedString));
    assert_eq!(literal_string(b"a)"), Res::NotFound);
}
