use pdf::error::Error;
use pdf::lexer::Res;
use pdf::strings::{hex_string, identifier, identifier_escape, literal_string, octal_char, string};

fn escape(bytes: &[u8]) -> Vec<u8> {
    let mut out = vec![b'('];
    for &b in bytes {
        match b {
            b'\n' => out.extend_from_slice(b"\\n"),
            b'\r' => out.extend_from_slice(b"\\r"),
            b'\t' => out.extend_from_slice(b"\\t"),
            0x08 => out.extend_from_slice(b"\\b"),
            0x0C => out.extend_from_slice(b"\\f"),
            b'(' => out.extend_from_slice(b"\\("),
            b')' => out.extend_from_slice(b"\\)"),
            b'\\' => out.extend_from_slice(b"\\\\"),
            0x20..=0x7E => out.push(b),
            _ => out.extend_from_slice(format!("\\{:03o}", b).as_bytes()),
        }
    }
    out.push(b')');
    out
}

#[test]
fn escaped_bytes_are_read_back() {
    let all: Vec<u8> = (0u8..=255).collect();
    let mut written = escape(&all);
    written.extend_from_slice(b" rest");
    let found = literal_string(&written).unwrap();
    assert_eq!(found.data, all);
    assert_eq!(found.remaining, b" rest");
    for sample in [&b""[..], b"()", b")(", b"\\", b"\\\\n", b"a\nb\rc", b"777", b"\x00123"] {
        let written = escape(sample);
        let found = literal_string(&written).unwrap();
        assert_eq!(found.data, sample.to_vec());
        assert_eq!(found.remaining, b"");
    }
}

#[test]
fn balanced_parentheses_are_kept() {
    assert_eq!(literal_string(b"(a(b)c)").unwrap().data, b"a(b)c".to_vec());
    assert_eq!(literal_string(b"(a(b)c)").unwrap().remaining, b"");
    assert_eq!(literal_string(b"((()))x").unwrap().data, b"(())".to_vec());
    assert_eq!(literal_string(b"(a\\(b)c)").unwrap().data, b"a(b".to_vec());
    assert_eq!(literal_string(b"(a(b)"), Res::Error(Error::UnbalancedString));
    assert_eq!(literal_string(b"(a\\)"), Res::Error(Error::UnbalancedString));
    assert_eq!(literal_string(b"(\\"), Res::Error(Error::UnbalancedString));
    assert_eq!(literal_string(b""), Res::NotFound);
    assert_eq!(literal_string(b"<41>"), Res::NotFound);
}

#[test]
fn octal_escapes_drop_what_does_not_fit_a_byte() {
    assert_eq!(octal_char(b"377").unwrap().data, 255);
    assert_eq!(octal_char(b"400").unwrap().data, 0);
    assert_eq!(octal_char(b"777").unwrap().data, 255);
    assert_eq!(octal_char(b"1234").unwrap().data, 0o123);
    assert_eq!(octal_char(b"1234").unwrap().remaining, b"4");
    assert_eq!(octal_char(b"18").unwrap().data, 1);
    assert_eq!(octal_char(b"8"), Res::NotFound);
    assert_eq!(octal_char(b""), Res::NotFound);
    assert_eq!(literal_string(b"(\\1234)").unwrap().data, b"S4".to_vec());
}

#[test]
fn white_space_in_a_hexadecimal_string_does_not_count() {
    let plain = hex_string(b"<48656C6C6F>").unwrap().data;
    assert_eq!(plain, b"Hello".to_vec());
    for scrambled in [
        &b"< 48 65 6C 6C 6F >"[..],
        b"<4 8 6 5 6 C 6 C 6 F>",
        b"<\t48656C\r\n6C6F\x0C>",
        b"<48656c6c6f>",
        b"<48656C6C6F\n>",
        b"<4\x008656C6C6F>",
        b"<\x0048\x0065\x006C\x006C\x006F\x00>",
        b"<\x00\t\n\x0C\r 4\x00\t\n\x0C\r 8656C6C6F>",
    ] {
        assert_eq!(hex_string(scrambled).unwrap().data, plain);
    }
    assert_eq!(hex_string(b"<4\x001>").unwrap().data, vec![0x41]);
    assert_eq!(hex_string(b"<4\x001>").unwrap().remaining, b"");
    assert_eq!(hex_string(b"<4>").unwrap().data, vec![0x40]);
    assert_eq!(hex_string(b"< 4 1 4 >").unwrap().data, vec![0x41, 0x40]);
}

#[test]
fn a_hexadecimal_string_must_be_digits_and_end() {
    assert_eq!(hex_string(b"<4G>"), Res::Error(Error::InvalidNumber));
    assert_eq!(hex_string(b"<4\x01>"), Res::Error(Error::InvalidNumber));
    assert_eq!(hex_string(b"<4\x0B1>"), Res::Error(Error::InvalidNumber));
    assert_eq!(hex_string(b"<<"), Res::Error(Error::InvalidNumber));
    assert_eq!(hex_string(b"<41"), Res::Error(Error::UnexpectedEof));
    assert_eq!(hex_string(b"<"), Res::Error(Error::UnexpectedEof));
    assert_eq!(hex_string(b" <41>"), Res::NotFound);
    assert_eq!(hex_string(b""), Res::NotFound);
    assert_eq!(string(b"<4G>"), Res::NotFound);
    assert_eq!(string(b"<41"), Res::NotFound);
    assert_eq!(string(b"x"), Res::NotFound);
}

#[test]
fn names_end_at_delimiters_and_resolve_escapes() {
    for (data, expected, remaining) in [
        ("/Name/Other", "Name", "/Other"),
        ("/Name(x)", "Name", "(x)"),
        ("/Name)x", "Name", ")x"),
        ("/Name[1]", "Name", "[1]"),
        ("/Name]", "Name", "]"),
        ("/Name<41>", "Name", "<41>"),
        ("/Name>>", "Name", ">>"),
        ("/Name x", "Name", " x"),
        ("/Name\n", "Name", "\n"),
        ("/", "", ""),
        ("/ x", "", " x"),
        ("/A#2FB", "A/B", ""),
        ("/A#zz ", "A#zz", " "),
        ("/A#4 x", "A#4", " x"),
        ("/{}%", "{}%", ""),
    ] {
        let found = identifier(data.as_bytes()).unwrap();
        assert_eq!(found.data, expected.as_bytes().to_vec());
        assert_eq!(found.remaining, remaining.as_bytes());
    }
    assert_eq!(identifier(b"/A#\xFFx\x80").unwrap().data, b"A#".to_vec());
    assert_eq!(identifier(b"/A#FF").unwrap().data, vec![b'A', 0xFF]);
    assert_eq!(identifier(b"Name"), Res::NotFound);
    assert_eq!(identifier(b""), Res::NotFound);
}

#[test]
fn an_escape_cut_short_is_an_invalid_name() {
    assert_eq!(identifier_escape(b"#4"), Res::Error(Error::InvalidName));
    assert_eq!(identifier_escape(b"#"), Res::Error(Error::InvalidName));
    assert_eq!(identifier_escape(b"#zz"), Res::NotFound);
    assert_eq!(identifier_escape(b"41"), Res::NotFound);
    assert_eq!(identifier_escape(b""), Res::NotFound);
    assert_eq!(identifier(b"/A#4"), Res::Error(Error::InvalidName));
    assert_eq!(identifier(b"/A#"), Res::Error(Error::InvalidName));
}
