use pdf::error::Error;
use pdf::lexer::Res;
use pdf::object::{Entry, Filter, Key, PdfDictionary, PdfObject, Stream, StreamMetadata};
use pdf::stream::{
    apply_filter, decode_stream, stream, stream_definition, Numbered, Objects, Resolver,
    Unresolved,
};

const COMPRESSED: &[u8] =
    b"x\x9CKIM\xCEOIMQ(.)JM\xCCUHI,I\xD4QH\xC1\x14\x04\x00-\xFF\x0E\xA9";
const PLAIN: &[u8] = b"decoded stream data, decoded stream data";

fn from_bytes(data: &[u8]) -> String {
    String::from_utf8(data.to_vec()).unwrap()
}

fn stream_test(data: &str, expected: &str, remaining: &str, objects: Vec<(u64, PdfObject)>) {
    let table = Objects {
        objects: objects
            .into_iter()
            .map(|(number, object)| Numbered { number, object })
            .collect(),
    };
    let result = stream(data.as_bytes(), &table).unwrap();
    assert_eq!(from_bytes(&result.data.data[..]).as_str(), expected);
    assert_eq!(from_bytes(result.remaining).as_str(), remaining);
}

#[test]
fn test_stream() {
    stream_test(
        "<< /Length 12 >> \
            stream\n\
                123456789012\n\
            endstream",
        "123456789012",
        "",
        vec![],
    );
    stream_test(
        "<< /Length 12 >> \
            stream\n\
                123456789012endstream",
        "123456789012",
        "",
        vec![],
    );
    stream_test(
        "<< /Length 8 0 R >> % Reference length\n\
            stream\n\
                123456789012\n\
            endstream",
        "123456789012",
        "",
        vec![(8, PdfObject::Integer(12))],
    );
}

#[test]
fn indirect_length_gives_the_length_of_the_data() {
    let table = Objects {
        objects: vec![Numbered { number: 8, object: PdfObject::Integer(12) }],
    };
    let found = stream(b"<< /Length 8 0 R >>\nstream\n123456789012\nendstream rest", &table)
        .unwrap();
    assert_eq!(found.data.data.len(), 12);
    assert_eq!(found.data.metadata.length, 12);
    assert!(!found.data.decoded);
    assert_eq!(found.remaining, b" rest");
}

#[test]
fn a_stream_needs_a_usable_length() {
    assert_eq!(
        stream(b"<< /A 1 >>\nstream\nabc\nendstream", &Unresolved),
        Res::Error(Error::MissingLength)
    );
    assert_eq!(
        stream(b"<< /Length -1 >>\nstream\nabc\nendstream", &Unresolved),
        Res::Error(Error::MissingLength)
    );
    assert_eq!(
        stream(b"<< /Length (3) >>\nstream\nabc\nendstream", &Unresolved),
        Res::Error(Error::MissingLength)
    );
    assert_eq!(
        stream(b"<< /Length 8 0 R >>\nstream\nabc\nendstream", &Unresolved),
        Res::Error(Error::MissingLength)
    );
    let empty = Objects { objects: vec![] };
    assert_eq!(
        stream(b"<< /Length 8 0 R >>\nstream\nabc\nendstream", &empty),
        Res::Error(Error::MissingLength)
    );
}

#[test]
fn a_dictionary_alone_is_no_stream() {
    assert_eq!(stream(b"<< /Length 3 >>", &Unresolved), Res::NotFound);
    assert_eq!(stream(b"<< /Length 3 >> endobj", &Unresolved), Res::NotFound);
    assert_eq!(stream(b"<< /A 1 >>\nendobj", &Unresolved), Res::NotFound);
    assert_eq!(stream(b"<< /Length 3 >>\nstream abc", &Unresolved), Res::NotFound);
    assert_eq!(stream(b"[1]", &Unresolved), Res::NotFound);
}

#[test]
fn stream_data_must_be_there_and_be_closed() {
    assert_eq!(
        stream(b"<< /Length 30 >>\nstream\nabc\nendstream", &Unresolved),
        Res::Error(Error::UnexpectedEof)
    );
    assert_eq!(stream(b"<< /Length 2 >>\nstream\nabc\nendstream", &Unresolved), Res::NotFound);
    assert_eq!(stream(b"<< /Length 3 >>\nstream\nabc\n", &Unresolved), Res::NotFound);
    let found = stream(b"<< /Length 3 >>\r\nstream\r\na\nc\r\nendstream", &Unresolved).unwrap();
    assert_eq!(found.data.data, b"a\nc".to_vec());
}

#[test]
fn a_later_table_entry_counts() {
    let table = Objects {
        objects: vec![
            Numbered { number: 8, object: PdfObject::Integer(1) },
            Numbered { number: 9, object: PdfObject::Integer(7) },
            Numbered { number: 8, object: PdfObject::Integer(3) },
        ],
    };
    assert_eq!(table.resolve(&Key::new(8, 0)), Ok(PdfObject::Integer(3)));
    assert_eq!(table.resolve(&Key::new(9, 5)), Ok(PdfObject::Integer(7)));
    assert_eq!(table.resolve(&Key::new(10, 0)), Ok(PdfObject::Null));
    assert_eq!(
        Unresolved.resolve(&Key::new(10, 0)),
        Ok(PdfObject::Reference(Key::new(10, 0)))
    );
}

#[test]
fn filters_are_named_by_a_name_or_by_an_array() {
    let one = stream(b"<< /Length 0 /Filter /FlateDecode >>\nstream\n\nendstream", &Unresolved)
        .unwrap()
        .data;
    assert_eq!(one.metadata.filters, vec![Filter::FlateDecode]);
    let two = stream(
        b"<< /Length 0 /Filter [/ASCII85Decode 3 /FlateDecode /Mine] >>\nstream\n\nendstream",
        &Unresolved,
    )
    .unwrap()
    .data;
    assert_eq!(
        two.metadata.filters,
        vec![Filter::ASCII85Decode, Filter::FlateDecode, Filter::Other(b"Mine".to_vec())]
    );
    let none = stream(b"<< /Length 0 /Filter 5 >>\nstream\n\nendstream", &Unresolved)
        .unwrap()
        .data;
    assert_eq!(none.metadata.filters, vec![]);
    let table = Objects {
        objects: vec![Numbered {
            number: 4,
            object: PdfObject::Identifier(b"LZWDecode".to_vec()),
        }],
    };
    let by_reference =
        stream(b"<< /Length 0 /Filter 4 0 R >>\nstream\n\nendstream", &table).unwrap().data;
    assert_eq!(by_reference.metadata.filters, vec![Filter::LZWDecode]);
}

#[test]
fn filter_names_map_to_the_standard_filters() {
    let names: Vec<(&str, Filter)> = vec![
        ("ASCIIHexDecode", Filter::ASCIIHexDecode),
        ("ASCII85Decode", Filter::ASCII85Decode),
        ("LZWDecode", Filter::LZWDecode),
        ("FlateDecode", Filter::FlateDecode),
        ("RunLengthDecode", Filter::RunLengthDecode),
        ("CCITTFaxDecode", Filter::CCITTFaxDecode),
        ("JBIG2Decode", Filter::JBIG2Decode),
        ("DCTDecode", Filter::DCTDecode),
        ("JPXDecode", Filter::JPXDecode),
        ("Crypt", Filter::Crypt),
    ];
    for (name, filter) in names {
        assert_eq!(Filter::named(name.as_bytes()), filter);
        assert_eq!(
            Filter::from(&PdfObject::Identifier(name.as_bytes().to_vec())),
            Some(filter)
        );
    }
    assert_eq!(Filter::named(b"flatedecode"), Filter::Other(b"flatedecode".to_vec()));
    assert_eq!(Filter::from(&PdfObject::Integer(1)), None);
    assert_eq!(Filter::from_vec(&PdfObject::Integer(1)), None);
}

fn flate_stream(filters: Vec<Filter>, data: &[u8]) -> Stream {
    let metadata = StreamMetadata {
        length: data.len() as u64,
        filters,
        dictionary: PdfDictionary::new(vec![Entry {
            key: b"Length".to_vec(),
            value: PdfObject::Integer(data.len() as i64),
        }]),
    };
    Stream::new(data, metadata)
}

#[test]
fn flate_decode_inflates_the_data_once() {
    let mut s = flate_stream(vec![Filter::FlateDecode], COMPRESSED);
    assert_eq!(s.apply_filters(), Ok(()));
    assert_eq!(s.data, PLAIN.to_vec());
    assert!(s.decoded);
    assert_eq!(s.apply_filters(), Ok(()));
    assert_eq!(s.data, PLAIN.to_vec());

    let mut again = flate_stream(vec![Filter::FlateDecode], COMPRESSED);
    assert_eq!(decode_stream(&mut again), Ok(()));
    assert_eq!(decode_stream(&mut again), Ok(()));
    assert_eq!(again.data, PLAIN.to_vec());

    let mut plain = flate_stream(vec![], b"as it is");
    assert_eq!(plain.apply_filters(), Ok(()));
    assert_eq!(plain.data, b"as it is".to_vec());
    assert!(plain.decoded);

    let mut direct = flate_stream(vec![], COMPRESSED);
    assert_eq!(direct.apply_flate_decode(), Ok(()));
    assert_eq!(direct.data, PLAIN.to_vec());
    assert!(!direct.decoded);
}

#[test]
fn a_filter_that_cannot_be_applied_leaves_the_stream_as_it_is() {
    let mut s = flate_stream(vec![Filter::FlateDecode, Filter::LZWDecode], COMPRESSED);
    assert_eq!(s.apply_filters(), Err(Error::UnsupportedFilter(b"LZWDecode".to_vec())));
    assert_eq!(s.data, COMPRESSED.to_vec());
    assert!(!s.decoded);

    let mut other = flate_stream(vec![Filter::Other(b"Mine".to_vec())], b"abc");
    assert_eq!(other.apply_filters(), Err(Error::UnsupportedFilter(b"Mine".to_vec())));

    let mut bad = flate_stream(vec![Filter::FlateDecode], b"not a zlib stream");
    assert_eq!(bad.apply_filters(), Err(Error::HeaderMismatch));
    assert_eq!(bad.data, b"not a zlib stream".to_vec());
    assert_eq!(bad.apply_flate_decode(), Err(Error::HeaderMismatch));
    assert_eq!(bad.data, b"not a zlib stream".to_vec());

    let mut cut = flate_stream(vec![Filter::FlateDecode], &COMPRESSED[..10]);
    assert_eq!(cut.apply_filters(), Err(Error::UnexpectedEof));
}

#[test]
fn filters_compose_from_left_to_right() {
    let inner: &[u8] = &[0x78, 0x9C, 0xCB, 0xC8, 0x04, 0x00, 0x01, 0x3B, 0x00, 0xD2];
    let outer: &[u8] = &[0x78, 0x9C, 0xAB, 0x98, 0x73, 0xFA, 0x04, 0x0B, 0x03, 0xA3, 0x35, 0xC3, 0x25, 0x00, 0x17, 0xA5, 0x03, 0xBA];
    let mut once = flate_stream(vec![Filter::FlateDecode], outer);
    assert_eq!(once.apply_filters(), Ok(()));
    assert_eq!(once.data, inner.to_vec());
    let mut twice = flate_stream(vec![Filter::FlateDecode, Filter::FlateDecode], outer);
    assert_eq!(twice.apply_filters(), Ok(()));
    assert_eq!(twice.data, b"hi".to_vec());
    assert_eq!(
        apply_filter(&Filter::FlateDecode, inner.to_vec()),
        Ok(b"hi".to_vec())
    );
    assert_eq!(
        apply_filter(&Filter::Other(b"FlateDecode".to_vec()), inner.to_vec()),
        Ok(b"hi".to_vec())
    );
    assert_eq!(
        apply_filter(&Filter::Crypt, inner.to_vec()),
        Err(Error::UnsupportedFilter(b"Crypt".to_vec()))
    );
}

#[test]
fn a_stream_definition_is_a_definition_of_a_stream() {
    let found =
        stream_definition(b"4 0 obj\n<< /Length 3 >>\nstream\nabc\nendstream\nendobj\n", &Unresolved)
            .unwrap();
    assert_eq!(found.data.key, Key::new(4, 0));
    match found.data.object {
        PdfObject::Stream(s) => assert_eq!(s.data, b"abc".to_vec()),
        _ => panic!("no stream"),
    }
    assert_eq!(found.remaining, b"\n");
    assert_eq!(
        stream_definition(b"4 0 obj\n<< /Length 3 >>\nendobj\n", &Unresolved),
        Res::NotFound
    );
    assert_eq!(stream_definition(b"4 0 obj\n(abc)\nendobj\n", &Unresolved), Res::NotFound);
}

#[test]
fn metadata_is_read_from_a_dictionary() {
    let dict = PdfDictionary::new(vec![
        Entry { key: b"Length".to_vec(), value: PdfObject::Integer(5) },
        Entry { key: b"Filter".to_vec(), value: PdfObject::Identifier(b"FlateDecode".to_vec()) },
    ]);
    let metadata = StreamMetadata::from(dict.clone()).unwrap();
    assert_eq!(metadata.length, 5);
    assert_eq!(metadata.filters, vec![Filter::FlateDecode]);
    assert_eq!(metadata.dictionary, dict);
    assert_eq!(StreamMetadata::from(PdfDictionary::new(vec![])), None);
}
