use pdf::bit_reader::{BitReader, ReadBits};
use pdf::error::Error;

fn test_bits(data: u8, len: usize, expected: u8) -> BitReader {
    let mut reader = BitReader::new(vec![data]);
    let actual = reader.read_bits(len).unwrap();

    assert_eq!(actual as u8, expected);

    reader
}

#[test]
fn test_read_bits() {
    test_bits(0b11111111, 2, 0b00000011);
    test_bits(0b11111111, 3, 0b00000111);
    test_bits(0b11111111, 4, 0b00001111);
    test_bits(0b11111111, 7, 0b01111111);
    test_bits(0b11001101, 8, 0b10110011);
    test_bits(0b11001101, 7, 0b01011001);
    test_bits(0b11111111, 8, 0b11111111);
    test_bits(0b00000001, 2, 0b00000010);
}

#[test]
fn test_read_bits_long() {
    let mut reader = BitReader::new(vec![0x78, 0x9C, 0x6B]);

    assert_eq!(reader.read_bits(8).unwrap() as u8, 0x78u8.reverse_bits());
    assert_eq!(reader.read_bits(8).unwrap() as u8, 0x9Cu8.reverse_bits());
    assert_eq!(reader.read_bits(8).unwrap() as u8, 0x6Bu8.reverse_bits());
}

#[test]
fn test_read_number_long() {
    let mut reader = BitReader::new(vec![0x78, 0x9C, 0x6B]);

    let actual = reader.read_number(24).unwrap() as u32;
    assert_eq!(actual, 0x6B9C78);
}

#[test]
fn test_read_number_very_long_chain() {
    let mut reader = BitReader::new(vec![
        0x12, 0x34, 0x56, 0x78, 0x9A, 0xBC, 0xDE, 0xFF, 0xAB,
    ]);

    assert_eq!(reader.read_number(8).unwrap(), 0x12);
    assert_eq!(reader.read_number(8).unwrap(), 0x34);
    assert_eq!(reader.read_number(8).unwrap(), 0x56);
    assert_eq!(reader.read_number(8).unwrap(), 0x78);
    assert_eq!(reader.read_number(8).unwrap(), 0x9A);
    assert_eq!(reader.read_number(8).unwrap(), 0xBC);
    assert_eq!(reader.read_number(8).unwrap(), 0xDE);
    assert_eq!(reader.read_number(8).unwrap(), 0xFF);
    assert_eq!(reader.read_number(8).unwrap(), 0xAB);
}

#[test]
fn test_read_number_very_long() {
    let mut reader = BitReader::new(vec![
        0xFF, 0x12, 0x34, 0x56, 0x78, 0x9A, 0xBC, 0xDE, 0xFF,
    ]);

    assert_eq!(reader.read_number(8).unwrap(), 0xFF);
    assert_eq!(reader.read_number(64).unwrap(), 0xFFDEBC9A78563412);
}

#[test]
fn test_read_bits_really_long() {
    let mut reader = BitReader::new(vec![0x78, 0x9C, 0x6B]);

    let expected = ((0x78u8.reverse_bits() as u32) << 16)
        + ((0x9Cu8.reverse_bits() as u32) << 8)
        + 0x6Bu8.reverse_bits() as u32;

    let actual = reader.read_bits(24).unwrap() as u32;

    assert_eq!(actual, expected);
}

#[test]
fn test_fixed_huffman_bits() {
    let data = vec![
        0x0B, 0x49, 0x2D, 0x2E, 0xC9, 0xCC, 0x4B, 0x0F, 0x81, 0x50, 0x00,
    ];

    let mut reader = BitReader::new(data);

    assert_eq!(reader.read_bits(1).unwrap(), 0b1);
    assert_eq!(reader.read_bits(2).unwrap(), 0b10);
    assert_eq!(reader.read_bits(8).unwrap(), 0b10000100);
    assert_eq!(reader.read_bits(8).unwrap(), 0b10010101);
    assert_eq!(reader.read_bits(8).unwrap(), 0b10100011);
    assert_eq!(reader.read_bits(8).unwrap(), 0b10100100);
    assert_eq!(reader.read_bits(8).unwrap(), 0b10011001);
    assert_eq!(reader.read_bits(8).unwrap(), 0b10011110);
    assert_eq!(reader.read_bits(8).unwrap(), 0b10010111);
    assert_eq!(reader.read_bits(8).unwrap(), 0b10000100);
    assert_eq!(reader.read_bits(7).unwrap(), 0b0000100);
    assert_eq!(reader.read_bits(5).unwrap(), 0b00101);
    assert_eq!(reader.read_bits(1).unwrap(), 0b0);
    assert_eq!(reader.read_bits(7).unwrap(), 0b0000000);
}

#[test]
fn test_read_remaining_byte() {
    let data = vec![
        0xFF, 0xFF, 0xFF, 0xFF, 0xFF, 0xFF, 0x4B, 0x0F, 0x81, 0x50, 0x00,
    ];

    let mut reader = BitReader::new(data);

    assert_eq!(reader.read_bits(1).unwrap(), 0b1);
    assert_eq!(reader.read_bits(3).unwrap(), 0b111);
    assert_eq!(reader.read_remaining_byte().unwrap(), 4);
    assert_eq!(reader.read_bits(4).unwrap(), 0b1111);
}

#[test]
fn test_read_bits_continuation() {
    let mut reader = BitReader::new(vec![0b11111111, 0b10001111]);

    let mut actual = reader.read_bits(2).unwrap();
    assert_eq!(actual, 0b00000011);

    actual = reader.read_bits(4).unwrap();
    assert_eq!(actual, 0b00001111);

    actual = reader.read_bits(4).unwrap();
    assert_eq!(actual, 0b00001111);

    actual = reader.read_bits(6).unwrap();
    assert_eq!(actual, 0b00110001);

    assert!(reader.read_bits(1).is_err())
}

#[test]
fn reading_zero_bits_returns_zero_and_stays() {
    let mut reader = BitReader::new(vec![0xA5]);
    assert_eq!(reader.read_bits(0), Ok(0));
    assert_eq!(reader.read_number(0), Ok(0));
    assert_eq!(reader.read_number(8), Ok(0xA5));
    assert_eq!(reader.read_bits(0), Ok(0));
    assert_eq!(reader.read_number(0), Ok(0));
}

#[test]
fn a_failed_read_consumes_nothing() {
    let mut reader = BitReader::new(vec![0xA5]);
    assert_eq!(reader.read_bits(3), Ok(0b101));
    assert_eq!(reader.read_number(6), Err(Error::UnexpectedEof));
    assert_eq!(reader.read_bits(6), Err(Error::UnexpectedEof));
    assert_eq!(reader.read_number(5), Ok(0b10100));
}

#[test]
fn code_and_number_agree_on_palindromes_only() {
    let mut a = BitReader::new(vec![0x0F]);
    let mut b = BitReader::new(vec![0x0F]);
    assert_eq!(a.read_bits(8), Ok(0xF0));
    assert_eq!(b.read_number(8), Ok(0x0F));
}

#[test]
fn align_to_byte_returns_the_count_of_discarded_bits() {
    let mut reader = BitReader::new(vec![0xFF, 0x12]);
    assert_eq!(reader.align_to_byte(), 0);
    assert_eq!(reader.read_bits(3), Ok(0b111));
    assert_eq!(reader.align_to_byte(), 5);
    assert_eq!(reader.align_to_byte(), 0);
    assert_eq!(reader.read_number(8), Ok(0x12));
}

#[test]
fn byte_reads_need_alignment() {
    let mut reader = BitReader::new(vec![1, 2, 3, 4]);
    assert_eq!(reader.read_exact(1), Ok(vec![1]));
    assert_eq!(reader.read_bits(1), Ok(0));
    assert_eq!(reader.read_exact(1), Err(Error::Misaligned));
    assert_eq!(reader.read(1), Err(Error::Misaligned));
    assert_eq!(reader.align_to_byte(), 7);
    assert_eq!(reader.read_exact(5), Err(Error::UnexpectedEof));
    assert_eq!(reader.read(5), Ok(vec![3, 4]));
    assert_eq!(reader.read(5), Ok(vec![]));
    assert_eq!(reader.read_exact(0), Ok(vec![]));
}

#[test]
fn the_aligning_read_gives_the_number_of_bits_passed_over() {
    let mut reader = BitReader::new(vec![0xA5, 0x5A, 0xFF]);
    assert_eq!(reader.read_remaining_byte(), Ok(0));
    assert!(reader.is_aligned());
    assert_eq!(reader.read_bits(1), Ok(1));
    assert_eq!(reader.read_remaining_byte(), Ok(7));
    assert!(reader.is_aligned());
    assert_eq!(reader.read_byte(), Ok(0x5A));
    assert_eq!(reader.read_number(7), Ok(0x7F));
    assert_eq!(reader.read_remaining_byte(), Ok(1));
    assert_eq!(reader.read_remaining_byte(), Ok(0));
    assert_eq!(reader.read_bits(1), Err(Error::UnexpectedEof));
}
