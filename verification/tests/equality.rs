use pdf::equality::{same_filters, same_objects};
use pdf::object::{Entry, Filter, Key, PdfDictionary, PdfObject};
use pdf::parse::{dictionary, object};
use pdf::stream::{stream, Unresolved};

fn read(text: &str) -> PdfObject {
    object(text.as_bytes()).unwrap().data
}

fn table(text: &str) -> PdfDictionary {
    dictionary(text.as_bytes()).unwrap().data
}

#[test]
fn dictionaries_are_the_same_in_any_order() {
    let one = table("<< /A 1 /B (two) /C [3 4] >>");
    let other = table("<< /C [3 4] /A 1 /B (two) >>");
    assert!(one.same(&other));
    assert!(other.same(&one));
    assert_eq!(one, other);
    assert_eq!(read("<< /A << /X 1 /Y 2 >> >>"), read("<< /A << /Y 2 /X 1 >> >>"));
}

#[test]
fn a_later_entry_replaces_an_earlier_one() {
    let twice = table("<< /A 1 /B 2 /A 3 >>");
    assert_eq!(twice, table("<< /B 2 /A 3 >>"));
    assert_ne!(twice, table("<< /A 1 /B 2 >>"));
    assert!(twice.within(&table("<< /A 3 /B 2 /C 4 >>")));
    assert!(!twice.within(&table("<< /A 1 /B 2 /C 4 >>")));
}

#[test]
fn dictionaries_differ_by_a_name_or_by_an_object() {
    let one = table("<< /A 1 /B 2 >>");
    assert_ne!(one, table("<< /A 1 >>"));
    assert_ne!(one, table("<< /A 1 /B 2 /C 3 >>"));
    assert_ne!(one, table("<< /A 1 /B 3 >>"));
    assert_ne!(one, table("<< /A 1 /b 2 >>"));
    assert!(table("<< /A 1 >>").within(&one));
    assert!(!one.within(&table("<< /A 1 >>")));
    assert_eq!(table("<< >>"), PdfDictionary::new(Vec::new()));
    assert_ne!(table("<< >>"), one);
}

#[test]
fn arrays_are_the_same_item_by_item() {
    assert_eq!(read("[1 2 3]"), read("[ 1 2 3 ]"));
    assert_ne!(read("[1 2 3]"), read("[3 2 1]"));
    assert_ne!(read("[1 2 3]"), read("[1 2]"));
    assert_ne!(read("[1 2]"), read("[1 2 3]"));
    assert_eq!(read("[]"), read("[ ]"));
    assert_eq!(read("[[1] << /A [2] >>]"), read("[[1] << /A [2] >>]"));
    assert_ne!(read("[[1] << /A [2] >>]"), read("[[1] << /A [3] >>]"));
    let left = vec![PdfObject::Integer(1), PdfObject::Null];
    assert!(same_objects(&left, &vec![PdfObject::Integer(1), PdfObject::Null]));
    assert!(!same_objects(&left, &vec![PdfObject::Null, PdfObject::Integer(1)]));
}

#[test]
fn objects_of_different_kinds_differ() {
    let all = vec![
        read("null"),
        read("true"),
        read("false"),
        read("1"),
        read("2"),
        read("1.0"),
        read("1.00"),
        read("-1.0"),
        read("(1)"),
        read("(2)"),
        read("/1"),
        read("/2"),
        read("1 0 R"),
        read("1 1 R"),
        read("2 0 R"),
        read("[1]"),
        read("<< /A 1 >>"),
    ];
    for (i, a) in all.iter().enumerate() {
        for (j, b) in all.iter().enumerate() {
            assert_eq!(a.same(b), i == j);
            assert_eq!(a == b, i == j);
        }
    }
    assert_eq!(read("<41>"), read("(A)"));
    assert_eq!(read("/A#42"), read("/AB"));
    assert_eq!(PdfObject::Reference(Key::new(1, 0)), read("1 0 R"));
}

#[test]
fn a_copy_is_the_same_as_what_it_copies() {
    let one = read("<< /A [1 2.5 (x) /N null true 3 0 R] /B << /C << >> >> >>");
    assert_eq!(one.clone(), one);
    assert_eq!(one.duplicate(), one);
}

#[test]
fn streams_are_the_same_by_data_state_and_dictionary() {
    let read = |text: &[u8]| stream(text, &Unresolved).unwrap().data;
    let one = read(b"<< /Length 3 /Filter /FlateDecode >>\nstream\nabc\nendstream");
    let other = read(b"<< /Filter /FlateDecode /Length 3 >>\nstream\nabc\nendstream");
    assert_eq!(one, other);
    assert!(one.same(&other));
    assert_ne!(one, read(b"<< /Length 3 /Filter /FlateDecode >>\nstream\nabd\nendstream"));
    assert_ne!(one, read(b"<< /Length 3 >>\nstream\nabc\nendstream"));
    assert_ne!(one, read(b"<< /Length 3 /Filter /LZWDecode >>\nstream\nabc\nendstream"));
    let mut plain = read(b"<< /Length 3 >>\nstream\nabc\nendstream");
    let untouched = plain.duplicate();
    assert_eq!(plain, untouched);
    plain.apply_filters().unwrap();
    assert_ne!(plain, untouched);
}

#[test]
fn filters_are_the_same_by_their_names() {
    let one = vec![Filter::FlateDecode, Filter::Other(b"Mine".to_vec())];
    assert!(same_filters(&one, &vec![Filter::FlateDecode, Filter::Other(b"Mine".to_vec())]));
    assert!(!same_filters(&one, &vec![Filter::Other(b"Mine".to_vec()), Filter::FlateDecode]));
    assert!(!same_filters(&one, &vec![Filter::FlateDecode]));
    assert!(!same_filters(&one, &vec![Filter::FlateDecode, Filter::Other(b"Yours".to_vec())]));
    assert!(same_filters(&Vec::new(), &Vec::new()));
}

#[test]
fn entries_written_by_hand_make_the_dictionary_that_is_read() {
    let made = PdfDictionary::new(vec![
        Entry { key: b"B".to_vec(), value: PdfObject::Integer(2) },
        Entry { key: b"A".to_vec(), value: PdfObject::Integer(1) },
    ]);
    assert_eq!(made, table("<< /A 1 /B 2 >>"));
}
