use pdf::bit_reader::{BitReader, ReadBits};
use pdf::deflate::{
    copy_match, distance_of_symbol, generate_fixed_distance_code, generate_fixed_huffman,
    length_of_symbol, read_code_lengths, rfc1950, rfc1950_with_limit, rfc1951,
    rfc1951_with_limit, EncodingType,
};
use pdf::error::Error;
use pdf::huffman::generate_codes;

const TIMES: &str = "It was the best of times, it was the worst of times, it was the age of wisdom, it was the age of foolishness, it was the epoch of belief, it was the epoch of incredulity, ";

fn dynamic_block() -> Vec<u8> {
    vec![
        0xED, 0xCE, 0xCB, 0x09, 0x80, 0x30, 0x10, 0x84, 0xE1, 0x56, 0xB6, 0x00, 0x1B, 0xB1, 0x8C,
        0x3C, 0x26, 0x66, 0x21, 0x71, 0xC5, 0x5D, 0x09, 0x76, 0x2F, 0x39, 0x89, 0x10, 0x8F, 0xDE,
        0x3C, 0x7F, 0x33, 0xF0, 0xCF, 0x46, 0xCD, 0x29, 0x59, 0x06, 0x79, 0xA8, 0x91, 0x24, 0x32,
        0xAE, 0xD0, 0x89, 0xF8, 0x96, 0x26, 0xFB, 0x1B, 0xB9, 0x05, 0x1D, 0x1A, 0x6B, 0x94, 0x3A,
        0x92, 0x24, 0x52, 0x58, 0xF3, 0x0A, 0x7D, 0x1E, 0xB1, 0x49, 0xC8, 0x7D, 0xE0, 0x51, 0x18,
        0x69, 0x6C, 0xBC, 0x86, 0x1D, 0xF1, 0x28, 0x6C, 0xE7, 0x44, 0xF3, 0x9F, 0xFA, 0x41, 0xEA,
        0x05,
    ]
}

fn inflate(data: Vec<u8>) -> Result<Vec<u8>, Error> {
    let mut reader = BitReader::new(data);
    rfc1951(&mut reader)
}

#[test]
fn test_fixed_huffman_decode() {
    let data = vec![
        0x0B, 0x49, 0x2D, 0x2E, 0xC9, 0xCC, 0x4B, 0x0F, 0x81, 0x50, 0x00,
    ];

    let mut reader = BitReader::new(data);

    let data = rfc1951(&mut reader).unwrap();
    assert_eq!(String::from_utf8(data).unwrap().as_str(), "TestingTesting");
}

#[test]
fn dynamic_huffman_block_decodes() {
    let expected = format!("{}{}{}", TIMES, TIMES, TIMES);
    assert_eq!(inflate(dynamic_block()), Ok(expected.into_bytes()));
}

#[test]
fn stored_block_decodes() {
    let data = vec![0x01, 0x05, 0x00, 0xFA, 0xFF, 0x68, 0x65, 0x6C, 0x6C, 0x6F];
    assert_eq!(inflate(data), Ok(b"hello".to_vec()));
}

#[test]
fn stored_block_of_length_zero_emits_nothing() {
    let mut reader = BitReader::new(vec![0x01, 0x00, 0x00, 0xFF, 0xFF, 0xAA]);
    assert_eq!(rfc1951(&mut reader), Ok(vec![]));
    assert_eq!(reader.read_number(8), Ok(0xAA));
}

#[test]
fn fixed_block_with_only_end_of_block_emits_nothing() {
    assert_eq!(inflate(vec![0x03, 0x00]), Ok(vec![]));
}

#[test]
fn blocks_follow_each_other_until_the_final_one() {
    // a stored block that is not final, then a final fixed block
    let data = vec![
        0x00, 0x02, 0x00, 0xFD, 0xFF, 0x68, 0x69, 0x0B, 0x49, 0x2D, 0x2E, 0xC9, 0xCC, 0x4B, 0x0F,
        0x81, 0x50, 0x00,
    ];
    assert_eq!(inflate(data), Ok(b"hiTestingTesting".to_vec()));
}

#[test]
fn back_reference_with_distance_one_repeats_the_previous_byte() {
    let data = vec![0x4B, 0x4C, 0x24, 0x0E, 0x00, 0x00];
    assert_eq!(inflate(data), Ok(vec![b'a'; 40]));

    let mut out = vec![1, 2, 3];
    copy_match(&mut out, 1, 5);
    assert_eq!(out, vec![1, 2, 3, 3, 3, 3, 3, 3]);
}

#[test]
fn back_reference_may_overlap_its_own_output() {
    let mut out = vec![1, 2, 3];
    copy_match(&mut out, 2, 5);
    assert_eq!(out, vec![1, 2, 3, 2, 3, 2, 3, 2]);

    let mut out = vec![1, 2, 3];
    copy_match(&mut out, 3, 2);
    assert_eq!(out, vec![1, 2, 3, 1, 2]);

    let mut out = vec![9];
    copy_match(&mut out, 1, 0);
    assert_eq!(out, vec![9]);
}

#[test]
fn reserved_block_type_is_invalid() {
    assert_eq!(inflate(vec![0x07]), Err(Error::InvalidBlock));
}

#[test]
fn truncated_streams_end_unexpectedly() {
    assert_eq!(inflate(vec![]), Err(Error::UnexpectedEof));
    assert_eq!(inflate(vec![0x0B, 0x49, 0x2D]), Err(Error::UnexpectedEof));
    assert_eq!(inflate(vec![0x01, 0x05, 0x00, 0xFA, 0xFF, 0x68]), Err(Error::UnexpectedEof));
    assert_eq!(inflate(vec![0x01, 0x05, 0x00]), Err(Error::UnexpectedEof));
    let mut cut = dynamic_block();
    cut.truncate(20);
    assert_eq!(inflate(cut), Err(Error::UnexpectedEof));
}

#[test]
fn stored_block_checks_its_length() {
    assert_eq!(inflate(vec![0x01, 0x05, 0x00, 0xFA, 0xFE, 0x68]), Err(Error::LengthMismatch));
}

#[test]
fn back_reference_before_the_start_is_a_bad_distance() {
    // fixed block: length symbol 257 (code 0000001), distance symbol 0 (00000)
    // bits: 1, 10 (header, fixed), 0000001, 00000
    // stream order, LSB first per byte: 1 1 0 0 0 0 0 0 | 0 1 0 0 0 0 0 0
    assert_eq!(inflate(vec![0x03, 0x02]), Err(Error::BadDistance));
}

#[test]
fn symbols_outside_the_alphabets_are_invalid_codes() {
    // fixed block, literal/length symbol 286: code 11000110 (8 bits)
    // stream: 1 1 0 | 1 1 0 0 0 1 1 0 ...
    // byte 0 bits (LSB first): 1 1 0 1 1 0 0 0 -> 0b0001_1011 = 0x1B
    // byte 1 bits: 1 1 0 0 0 0 0 0 -> 0x03
    assert_eq!(inflate(vec![0x1B, 0x03, 0x00]), Err(Error::InvalidCode));
    // fixed block, 'a' literal then length symbol 257, distance symbol 30: 11110
    // 'a' = 0x61 = 97 -> code 0x30 + 97 = 10010001
    // stream: 1 1 0 | 1 0 0 1 0 0 0 1 | 0 0 0 0 0 0 1 | 1 1 1 1 0
    // bytes LSB first: [1 1 0 1 0 0 1 0] [0 0 1 0 0 0 0 0] [0 1 1 1 1 1 0 0]
    assert_eq!(inflate(vec![0x4B, 0x04, 0x3E]), Err(Error::InvalidCode));
}

#[test]
fn output_beyond_the_limit_is_too_large() {
    let data = vec![
        0x0B, 0x49, 0x2D, 0x2E, 0xC9, 0xCC, 0x4B, 0x0F, 0x81, 0x50, 0x00,
    ];
    let mut reader = BitReader::new(data.clone());
    assert_eq!(rfc1951_with_limit(&mut reader, 14), Ok(b"TestingTesting".to_vec()));
    let mut reader = BitReader::new(data.clone());
    assert_eq!(rfc1951_with_limit(&mut reader, 13), Err(Error::OutputTooLarge));
    let mut reader = BitReader::new(data);
    assert_eq!(rfc1951_with_limit(&mut reader, 3), Err(Error::OutputTooLarge));
    let mut reader = BitReader::new(vec![0x01, 0x05, 0x00, 0xFA, 0xFF, 0x68, 0x65, 0x6C, 0x6C, 0x6F]);
    assert_eq!(rfc1951_with_limit(&mut reader, 4), Err(Error::OutputTooLarge));
}

#[test]
fn zlib_header_is_accepted_and_the_checksum_is_read() {
    let mut data = vec![0x78, 0x9C, 0x03, 0x00, 0x00, 0x00, 0x00, 0x01];
    data.push(0x5A);
    let mut reader = BitReader::new(data);
    assert_eq!(rfc1950(&mut reader), Ok(vec![]));
    assert_eq!(reader.read_number(8), Ok(0x5A));
}

#[test]
fn zlib_gives_what_the_wrapped_stream_gives() {
    let mut wrapped = vec![0x78, 0x9C];
    wrapped.extend_from_slice(&dynamic_block());
    wrapped.extend_from_slice(&[0x03, 0x99, 0xB3, 0x89]);
    let mut reader = BitReader::new(wrapped);
    assert_eq!(rfc1950(&mut reader), inflate(dynamic_block()));
}

#[test]
fn zlib_skips_a_preset_dictionary_id() {
    // CMF 0x78, FLG with FDICT set: 0x78 * 256 + FLG divisible by 31, bit 5 set
    // 0x78BB = 30907 = 31 * 997
    let data = vec![0x78, 0xBB, 1, 2, 3, 4, 0x03, 0x00, 0, 0, 0, 1];
    let mut reader = BitReader::new(data);
    assert_eq!(rfc1950(&mut reader), Ok(vec![]));
}

#[test]
fn zlib_header_must_check_out() {
    let mut reader = BitReader::new(vec![0x78, 0x9D, 0x03, 0x00, 0, 0, 0, 1]);
    assert_eq!(rfc1950(&mut reader), Err(Error::HeaderMismatch));
    // method 7: 0x77 * 256 + FLG divisible by 31 -> 0x7709 = 30473 = 31 * 983
    let mut reader = BitReader::new(vec![0x77, 0x09, 0x03, 0x00, 0, 0, 0, 1]);
    assert_eq!(rfc1950(&mut reader), Err(Error::HeaderMismatch));
    let mut reader = BitReader::new(vec![0x78]);
    assert_eq!(rfc1950(&mut reader), Err(Error::UnexpectedEof));
}

#[test]
fn zlib_needs_its_trailer() {
    let mut reader = BitReader::new(vec![0x78, 0x9C, 0x03, 0x00, 0x00, 0x00, 0x00]);
    assert_eq!(rfc1950(&mut reader), Err(Error::UnexpectedEof));
    let mut reader = BitReader::new(vec![0x78, 0x9C, 0x03, 0x00, 0x00, 0x00, 0x00, 0x01]);
    assert_eq!(rfc1950_with_limit(&mut reader, 0), Ok(vec![]));
}

#[test]
fn block_types_are_numbered_as_in_the_format() {
    assert_eq!(EncodingType::from(0), Some(EncodingType::NoCompression));
    assert_eq!(EncodingType::from(1), Some(EncodingType::FixedHuffman));
    assert_eq!(EncodingType::from(2), Some(EncodingType::DynamicHuffman));
    assert_eq!(EncodingType::from(3), None);
    assert_eq!(EncodingType::from(4), None);
}

#[test]
fn length_and_distance_tables_have_the_values_of_the_format() {
    assert_eq!(length_of_symbol(257), (0, 3));
    assert_eq!(length_of_symbol(264), (0, 10));
    assert_eq!(length_of_symbol(265), (1, 11));
    assert_eq!(length_of_symbol(268), (1, 17));
    assert_eq!(length_of_symbol(269), (2, 19));
    assert_eq!(length_of_symbol(276), (3, 59));
    assert_eq!(length_of_symbol(280), (4, 115));
    assert_eq!(length_of_symbol(284), (5, 227));
    assert_eq!(length_of_symbol(285), (0, 258));
    assert_eq!(distance_of_symbol(0), (0, 1));
    assert_eq!(distance_of_symbol(3), (0, 4));
    assert_eq!(distance_of_symbol(4), (1, 5));
    assert_eq!(distance_of_symbol(5), (1, 7));
    assert_eq!(distance_of_symbol(17), (7, 385));
    assert_eq!(distance_of_symbol(28), (13, 16385));
    assert_eq!(distance_of_symbol(29), (13, 24577));
}

#[test]
fn fixed_code_has_the_codes_of_the_format() {
    let code = generate_fixed_huffman();
    assert_eq!(code.min_length(), 7);
    assert_eq!(code.max_length(), 9);
    assert_eq!(code.lookup(8, 0b00110000), Some(0));
    assert_eq!(code.lookup(8, 0b10111111), Some(143));
    assert_eq!(code.lookup(9, 0b110010000), Some(144));
    assert_eq!(code.lookup(9, 0b111111111), Some(255));
    assert_eq!(code.lookup(7, 0b0000000), Some(256));
    assert_eq!(code.lookup(7, 0b0010111), Some(279));
    assert_eq!(code.lookup(8, 0b11000000), Some(280));
    assert_eq!(code.lookup(8, 0b11000111), Some(287));
    assert_eq!(code.lookup(8, 0b11001000), None);
    assert_eq!(code.lookup(7, 0b0011000), None);
    assert_eq!(code.lookup(6, 0), None);

    let distance = generate_fixed_distance_code();
    assert_eq!(distance.min_length(), 5);
    assert_eq!(distance.max_length(), 5);
    assert_eq!(distance.lookup(5, 0), Some(0));
    assert_eq!(distance.lookup(5, 31), Some(31));
    assert_eq!(distance.lookup(4, 0), None);
}

#[test]
fn codes_are_handed_out_by_length_and_then_by_symbol() {
    // the example of the format's definition: lengths (3, 3, 3, 3, 3, 2, 4, 4)
    let code = generate_codes(&[3, 3, 3, 3, 3, 2, 4, 4]);
    assert_eq!(code.lookup(2, 0b00), Some(5));
    assert_eq!(code.lookup(3, 0b010), Some(0));
    assert_eq!(code.lookup(3, 0b011), Some(1));
    assert_eq!(code.lookup(3, 0b100), Some(2));
    assert_eq!(code.lookup(3, 0b101), Some(3));
    assert_eq!(code.lookup(3, 0b110), Some(4));
    assert_eq!(code.lookup(4, 0b1110), Some(6));
    assert_eq!(code.lookup(4, 0b1111), Some(7));
    assert_eq!(code.lookup(3, 0b111), None);
    assert_eq!(code.lookup(2, 0b01), None);
    assert_eq!(code.min_length(), 2);
    assert_eq!(code.max_length(), 4);
}

#[test]
fn a_symbol_is_decoded_from_the_shortest_code_that_matches() {
    let code = generate_codes(&[3, 3, 3, 3, 3, 2, 4, 4]);
    // codes 00 (5), 1110 (6), 010 (0): stream bits 0 0 1 1 1 0 0 1 | 0
    let mut reader = BitReader::new(vec![0b1001_1100, 0b0000_0000]);
    assert_eq!(code.next_code(&mut reader), Ok(5));
    assert_eq!(code.next_code(&mut reader), Ok(6));
    assert_eq!(code.next_code(&mut reader), Ok(0));
    let mut reader = BitReader::new(vec![]);
    assert_eq!(code.next_code(&mut reader), Err(Error::UnexpectedEof));
    let sparse = generate_codes(&[2, 2]);
    let mut reader = BitReader::new(vec![0b0000_0001]);
    assert_eq!(sparse.next_code(&mut reader), Err(Error::InvalidCode));
    let mut reader = BitReader::new(vec![0b0000_0010]);
    assert_eq!(sparse.next_code(&mut reader), Ok(1));
}

#[test]
fn a_code_without_symbols_decodes_nothing() {
    let code = generate_codes(&[0, 0, 0]);
    assert_eq!(code.max_length(), 0);
    let mut reader = BitReader::new(vec![0xFF]);
    assert_eq!(code.next_code(&mut reader), Err(Error::InvalidCode));
    assert_eq!(reader.read_bits(8), Ok(0xFF));
}

#[test]
fn an_oversubscribed_code_keeps_the_codes_that_fit() {
    let code = generate_codes(&[1, 1, 1]);
    assert_eq!(code.lookup(1, 0), Some(0));
    assert_eq!(code.lookup(1, 1), Some(1));
    let mut reader = BitReader::new(vec![0b10]);
    assert_eq!(code.next_code(&mut reader), Ok(0));
    assert_eq!(code.next_code(&mut reader), Ok(1));
}

#[test]
fn code_length_code_lengths_come_in_their_own_order() {
    // four fields of three bits: 1, 2, 3, 4 for slots 16, 17, 18, 0
    // stream bits: 100 010 110 001 -> bytes LSB first: [1 0 0 0 1 0 1 1] [0 0 0 1 ....]
    let mut reader = BitReader::new(vec![0b1101_0001, 0b0000_1000]);
    let lengths = read_code_lengths(&mut reader, 4).unwrap();
    let mut expected = vec![0u8; 19];
    expected[16] = 1;
    expected[17] = 2;
    expected[18] = 3;
    expected[0] = 4;
    assert_eq!(lengths, expected);
    let mut reader = BitReader::new(vec![0b1101_0001]);
    assert_eq!(read_code_lengths(&mut reader, 4), Err(Error::UnexpectedEof));
}

#[test]
fn the_shortest_code_length_is_that_of_the_lengths() {
    assert_eq!(generate_codes(&[3, 3, 3, 3, 3, 2, 4, 4]).min_length(), 2);
    assert_eq!(generate_codes(&[0, 5, 0, 7, 5]).min_length(), 5);
    assert_eq!(generate_codes(&[15]).min_length(), 15);
    assert_eq!(generate_codes(&[0, 0, 0]).min_length(), 1);
    assert_eq!(generate_codes(&[]).min_length(), 1);
    assert_eq!(generate_fixed_huffman().min_length(), 7);
    assert_eq!(generate_fixed_distance_code().min_length(), 5);
    assert_eq!(generate_codes(&[3, 3, 3, 3, 3, 2, 4, 4]).max_length(), 4);
}
