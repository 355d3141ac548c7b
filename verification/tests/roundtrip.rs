use pdf::bit_reader::BitReader;
use pdf::deflate::{
    distance_of_symbol, length_of_symbol, rfc1950, rfc1950_with_limit, rfc1951, rfc1951_with_limit,
};
use pdf::error::Error;

/// Bits laid into bytes from the lowest bit of each byte up.
struct Bits {
    bytes: Vec<u8>,
    used: usize,
}

impl Bits {
    fn new() -> Bits {
        Bits { bytes: Vec::new(), used: 0 }
    }

    fn bit(&mut self, bit: u32) {
        if self.used % 8 == 0 {
            self.bytes.push(0);
        }
        if bit != 0 {
            let last = self.bytes.len() - 1;
            self.bytes[last] |= 1 << (self.used % 8);
        }
        self.used += 1;
    }

    /// A number, lowest bit first.
    fn number(&mut self, value: u32, bits: u32) {
        for i in 0..bits {
            self.bit((value >> i) & 1);
        }
    }

    /// A code, highest bit first.
    fn code(&mut self, value: u32, bits: u32) {
        for i in (0..bits).rev() {
            self.bit((value >> i) & 1);
        }
    }

    fn pad(&mut self) {
        while self.used % 8 != 0 {
            self.bit(0);
        }
    }

    /// A symbol of the fixed literal/length code.
    fn fixed_symbol(&mut self, symbol: u32) {
        if symbol < 144 {
            self.code(0x30 + symbol, 8);
        } else if symbol < 256 {
            self.code(0x190 + symbol - 144, 9);
        } else if symbol < 280 {
            self.code(symbol - 256, 7);
        } else {
            self.code(0xC0 + symbol - 280, 8);
        }
    }

    /// A match under the fixed codes.
    fn fixed_match(&mut self, length: usize, distance: usize) {
        let mut symbol: usize = 285;
        while length_of_symbol(symbol).1 > length {
            symbol -= 1;
        }
        let (extra, base) = length_of_symbol(symbol);
        self.fixed_symbol(symbol as u32);
        self.number((length - base) as u32, extra as u32);
        let mut far: usize = 29;
        while distance_of_symbol(far).1 > distance {
            far -= 1;
        }
        let (extra, base) = distance_of_symbol(far);
        self.code(far as u32, 5);
        self.number((distance - base) as u32, extra as u32);
    }
}

/// The longest match for what stands at `at`, among the distances up to 64.
fn longest_match(data: &[u8], at: usize) -> (usize, usize) {
    let mut best = (0, 0);
    for distance in 1..=at.min(64) {
        let mut length = 0;
        while length < 258 && at + length < data.len()
            && data[at + length - distance] == data[at + length]
        {
            length += 1;
        }
        if length > best.0 {
            best = (length, distance);
        }
    }
    best
}

/// One final block under the fixed codes, with matches where they pay.
fn compress_fixed(data: &[u8]) -> Vec<u8> {
    let mut bits = Bits::new();
    bits.bit(1);
    bits.number(1, 2);
    let mut at = 0;
    while at < data.len() {
        let (length, distance) = longest_match(data, at);
        if length >= 3 {
            bits.fixed_match(length, distance);
            at += length;
        } else {
            bits.fixed_symbol(data[at] as u32);
            at += 1;
        }
    }
    bits.fixed_symbol(256);
    bits.bytes
}

/// Stored blocks of at most `chunk` bytes each.
fn compress_stored(data: &[u8], chunk: usize) -> Vec<u8> {
    let mut bits = Bits::new();
    let mut at = 0;
    loop {
        let take = (data.len() - at).min(chunk);
        let last = at + take == data.len();
        bits.bit(if last { 1 } else { 0 });
        bits.number(0, 2);
        bits.pad();
        bits.number(take as u32, 16);
        bits.number(!(take as u32) & 0xFFFF, 16);
        for byte in &data[at..at + take] {
            bits.number(*byte as u32, 8);
        }
        at += take;
        if last {
            return bits.bytes;
        }
    }
}

fn adler32(data: &[u8]) -> u32 {
    let mut a: u32 = 1;
    let mut b: u32 = 0;
    for byte in data {
        a = (a + *byte as u32) % 65521;
        b = (b + a) % 65521;
    }
    (b << 16) | a
}

fn wrap(stream: Vec<u8>, data: &[u8]) -> Vec<u8> {
    let mut bytes = vec![0x78, 0x9C];
    bytes.extend(stream);
    bytes.extend(adler32(data).to_be_bytes());
    bytes
}

fn inflate(data: Vec<u8>) -> Result<Vec<u8>, Error> {
    let mut reader = BitReader::new(data);
    rfc1951(&mut reader)
}

fn samples() -> Vec<Vec<u8>> {
    let mut mixed: Vec<u8> = Vec::new();
    for i in 0..2000u32 {
        mixed.push(((i * i + 7 * i) % 251) as u8);
        if i % 17 == 0 {
            mixed.extend_from_slice(b"abcabcabcabcabc");
        }
    }
    vec![
        Vec::new(),
        vec![0],
        vec![255],
        b"a".to_vec(),
        b"aaaaaaaaaaaaaaaaaaaaaaaaaaaaaaaaaaaaaaaa".to_vec(),
        b"It was the best of times, it was the worst of times".to_vec(),
        (0..=255u8).collect(),
        vec![7; 1000],
        mixed,
    ]
}

#[test]
fn a_stream_under_the_fixed_codes_decompresses_to_its_bytes() {
    for sample in samples() {
        assert_eq!(inflate(compress_fixed(&sample)), Ok(sample));
    }
}

#[test]
fn a_stream_of_stored_blocks_decompresses_to_its_bytes() {
    for sample in samples() {
        assert_eq!(inflate(compress_stored(&sample, 0xFFFF)), Ok(sample.clone()));
        assert_eq!(inflate(compress_stored(&sample, 100)), Ok(sample));
    }
}

#[test]
fn a_long_run_is_written_as_matches_and_read_back() {
    let sample = vec![b'x'; 70000];
    let stream = compress_fixed(&sample);
    assert!(stream.len() < 1000);
    assert_eq!(inflate(stream), Ok(sample));
}

#[test]
fn a_wrapped_stream_decompresses_to_what_the_stream_does() {
    for sample in samples() {
        let stream = compress_fixed(&sample);
        let mut reader = BitReader::new(wrap(stream.clone(), &sample));
        assert_eq!(rfc1950(&mut reader), inflate(stream));
    }
}

#[test]
fn a_match_of_each_length_is_read_back() {
    for length in 3..=258usize {
        let mut bits = Bits::new();
        bits.bit(1);
        bits.number(1, 2);
        bits.fixed_symbol(b'q' as u32);
        bits.fixed_match(length, 1);
        bits.fixed_symbol(256);
        assert_eq!(inflate(bits.bytes), Ok(vec![b'q'; length + 1]));
    }
}

#[test]
fn a_stream_gives_its_bytes_or_is_too_large_under_every_cap() {
    for sample in samples() {
        for stream in [compress_fixed(&sample), compress_stored(&sample, 100)] {
            for limit in [0, 1, 2, 39, 40, 41, 255, 256, 1000, 5000] {
                let mut alone = BitReader::new(stream.clone());
                let mut wrapped = BitReader::new(wrap(stream.clone(), &sample));
                let expected = if sample.len() <= limit {
                    Ok(sample.clone())
                } else {
                    Err(Error::OutputTooLarge)
                };
                assert_eq!(rfc1951_with_limit(&mut alone, limit), expected);
                assert_eq!(rfc1950_with_limit(&mut wrapped, limit), expected);
            }
        }
    }
}
