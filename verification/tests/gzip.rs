use pdf::bit_reader::BitReader;
use pdf::error::Error;
use pdf::gzip::{read_name, rfc1952, Flag, Os};

fn member() -> Vec<u8> {
    vec![
        0x1F, 0x8B, 0x08, 0x00, 0x00, 0x00, 0x00, 0x00, 0x02, 0x03, 0xCB, 0x48, 0xCD, 0xC9, 0xC9,
        0x57, 0x48, 0xAF, 0xCA, 0x2C, 0xE0, 0x02, 0x00, 0x39, 0x7C, 0x63, 0x56, 0x0B, 0x00, 0x00,
        0x00,
    ]
}

fn gunzip(data: Vec<u8>) -> Result<Vec<u8>, Error> {
    let mut reader = BitReader::new(data);
    rfc1952(&mut reader)
}

#[test]
fn gzip_member_decompresses() {
    assert_eq!(gunzip(member()), Ok(b"hello gzip\n".to_vec()));
}

#[test]
fn gzip_member_with_a_name_decompresses() {
    let mut data = member();
    data[3] = 0x08;
    let tail = data.split_off(10);
    data.extend_from_slice(b"a.txt\0");
    data.extend_from_slice(&tail);
    assert_eq!(gunzip(data), Ok(b"hello gzip\n".to_vec()));
}

#[test]
fn gzip_header_must_check_out() {
    let mut data = member();
    data[0] = 0x1E;
    assert_eq!(gunzip(data), Err(Error::HeaderMismatch));
    let mut data = member();
    data[2] = 0x07;
    assert_eq!(gunzip(data), Err(Error::HeaderMismatch));
    let mut data = member();
    data[9] = 0x0E;
    assert_eq!(gunzip(data), Err(Error::HeaderMismatch));
    for flag in [0x02u8, 0x04, 0x10] {
        let mut data = member();
        data[3] = flag;
        assert_eq!(gunzip(data), Err(Error::HeaderMismatch));
    }
    assert_eq!(gunzip(vec![0x1F]), Err(Error::UnexpectedEof));
    assert_eq!(gunzip(vec![0x1F, 0x8B, 0x08, 0x00]), Err(Error::UnexpectedEof));
}

#[test]
fn gzip_size_must_match() {
    let mut data = member();
    let n = data.len();
    data[n - 4] = 0x0C;
    assert_eq!(gunzip(data), Err(Error::LengthMismatch));
    let mut data = member();
    data.truncate(n - 1);
    assert_eq!(gunzip(data), Err(Error::UnexpectedEof));
}

#[test]
fn name_is_read_up_to_and_with_its_terminator() {
    let mut reader = BitReader::new(b"name\0rest".to_vec());
    assert_eq!(read_name(&mut reader), Ok("name\0".to_string()));
    assert_eq!(reader.read_exact(4), Ok(b"rest".to_vec()));
    let mut reader = BitReader::new(b"\0".to_vec());
    assert_eq!(read_name(&mut reader), Ok("\0".to_string()));
    let mut reader = BitReader::new(vec![0xFF, 0xFE, 0x00]);
    assert_eq!(read_name(&mut reader), Ok("UnparsableName".to_string()));
    let mut reader = BitReader::new(b"name".to_vec());
    assert_eq!(read_name(&mut reader), Err(Error::UnexpectedEof));
}

#[test]
fn flags_are_the_bits_of_the_flag_byte() {
    assert_eq!(Flag::from(0), vec![]);
    assert_eq!(Flag::from(0b0000_0001), vec![Flag::Text]);
    assert_eq!(Flag::from(0b0000_1010), vec![Flag::Hcrc, Flag::Name]);
    assert_eq!(
        Flag::from(0xFF),
        vec![Flag::Text, Flag::Hcrc, Flag::Extra, Flag::Name, Flag::Comment]
    );
    assert_eq!(Flag::from(0b1110_0000), vec![]);
}

#[test]
fn operating_systems_are_numbered_as_in_the_format() {
    assert_eq!(Os::from(0), Some(Os::FatFilesystem));
    assert_eq!(Os::from(3), Some(Os::Unix));
    assert_eq!(Os::from(13), Some(Os::AcornRiscos));
    assert_eq!(Os::from(14), None);
    assert_eq!(Os::from(254), None);
    assert_eq!(Os::from(255), Some(Os::Unknown));
}
