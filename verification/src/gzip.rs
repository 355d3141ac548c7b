//! The gzip wrapper around DEFLATE.

use vstd::prelude::*;
use crate::error::Error;
use crate::bit_reader::{BitReader, ReadBits, bit_len, bits_to_boundary, lemma_number_bits_bound};
use crate::deflate::{
    rfc1951_with_limit,
    spec_inflate,
    number_at,
    Step,
    DEFAULT_OUTPUT_LIMIT,
};
use crate::text::{string_or, reads_as};

verus! {

/// The flags of a gzip member header.
#[derive(Debug, Clone, Copy, PartialEq, Eq, Hash, Structural)]
pub enum Flag {
    Text,
    Hcrc,
    Extra,
    Name,
    Comment,
}

impl Flag {
    /// The bit of the flag byte that stands for the flag.
    pub open spec fn mask(self) -> u8 {
        match self {
            Flag::Text => 0b0000_0001,
            Flag::Hcrc => 0b0000_0010,
            Flag::Extra => 0b0000_0100,
            Flag::Name => 0b0000_1000,
            Flag::Comment => 0b0001_0000,
        }
    }

    /// Whether the flag byte `data` has the flag.
    pub open spec fn is_set(self, data: u8) -> bool {
        data & self.mask() > 0
    }

    /// `[self]` where the flag is set in `data`, nothing where it is not.
    pub open spec fn if_set(self, data: u8) -> Seq<Flag> {
        if self.is_set(data) {
            seq![self]
        } else {
            seq![]
        }
    }

    /// The flags that are set in `data`, each once, in the order of their
    /// bits.
    pub open spec fn spec_from(data: u8) -> Seq<Flag> {
        Flag::Text.if_set(data) + Flag::Hcrc.if_set(data) + Flag::Extra.if_set(data)
            + Flag::Name.if_set(data) + Flag::Comment.if_set(data)
    }

    /// The flags that are set in the flag byte `data`.
    pub fn from(data: u8) -> (r: Vec<Flag>)
        ensures
            r@ == Self::spec_from(data),
    {
        let mut result: Vec<Flag> = Vec::new();
        if data & 0b0000_0001 > 0 {
            result.push(Flag::Text);
        }
        if data & 0b0000_0010 > 0 {
            result.push(Flag::Hcrc);
        }
        if data & 0b0000_0100 > 0 {
            result.push(Flag::Extra);
        }
        if data & 0b0000_1000 > 0 {
            result.push(Flag::Name);
        }
        if data & 0b0001_0000 > 0 {
            result.push(Flag::Comment);
        }
        assert(result@ =~= Self::spec_from(data));
        result
    }
}

/// The operating systems that a gzip member header can name.
#[derive(Debug, Clone, Copy, PartialEq, Eq, Hash, Structural)]
pub enum Os {
    FatFilesystem,
    Amiga,
    Vms,
    Unix,
    VmCms,
    AtariTos,
    HpfsFilesystem,
    Macintosh,
    ZSystem,
    CpM,
    Tops20,
    NtfsFilesystem,
    Qdos,
    AcornRiscos,
    Unknown,
}

impl Os {
    /// The operating system that the `OS` byte `data` names.
    pub open spec fn spec_from(data: u8) -> Option<Os> {
        if data == 0 {
            Some(Os::FatFilesystem)
        } else if data == 1 {
            Some(Os::Amiga)
        } else if data == 2 {
            Some(Os::Vms)
        } else if data == 3 {
            Some(Os::Unix)
        } else if data == 4 {
            Some(Os::VmCms)
        } else if data == 5 {
            Some(Os::AtariTos)
        } else if data == 6 {
            Some(Os::HpfsFilesystem)
        } else if data == 7 {
            Some(Os::Macintosh)
        } else if data == 8 {
            Some(Os::ZSystem)
        } else if data == 9 {
            Some(Os::CpM)
        } else if data == 10 {
            Some(Os::Tops20)
        } else if data == 11 {
            Some(Os::NtfsFilesystem)
        } else if data == 12 {
            Some(Os::Qdos)
        } else if data == 13 {
            Some(Os::AcornRiscos)
        } else if data == 255 {
            Some(Os::Unknown)
        } else {
            None
        }
    }

    /// The operating system that the `OS` byte `data` names; `None` for a
    /// byte that names none.
    pub fn from(data: u8) -> (r: Option<Os>)
        ensures
            r == Self::spec_from(data),
    {
        Some(
            match data {
                0 => Os::FatFilesystem,
                1 => Os::Amiga,
                2 => Os::Vms,
                3 => Os::Unix,
                4 => Os::VmCms,
                5 => Os::AtariTos,
                6 => Os::HpfsFilesystem,
                7 => Os::Macintosh,
                8 => Os::ZSystem,
                9 => Os::CpM,
                10 => Os::Tops20,
                11 => Os::NtfsFilesystem,
                12 => Os::Qdos,
                13 => Os::AcornRiscos,
                255 => Os::Unknown,
                _ => {
                    return None;
                },
            },
        )
    }
}

/// The index of the first zero byte at or after `from`.
pub open spec fn zero_from(bytes: Seq<u8>, from: nat) -> Option<nat>
    decreases bytes.len() - from,
{
    if from >= bytes.len() {
        None
    } else if bytes[from as int] == 0 {
        Some(from)
    } else {
        zero_from(bytes, from + 1)
    }
}

/// The zero-terminated name at `pos`, with its terminator, and the position
/// after it. `Misaligned` where `pos` is no byte boundary, `UnexpectedEof`
/// where no zero byte follows.
pub open spec fn spec_read_name(bytes: Seq<u8>, pos: nat) -> Result<(Seq<u8>, nat), Error> {
    if pos % 8 != 0 {
        Err(Error::Misaligned)
    } else {
        match zero_from(bytes, pos / 8) {
            None => Err(Error::UnexpectedEof),
            Some(zero) => Ok((bytes.subrange((pos / 8) as int, (zero + 1) as int), 8 * (zero + 1))),
        }
    }
}

/// The text of a name whose bytes are no valid UTF-8.
pub open spec fn unparsable_name() -> Seq<char> {
    "UnparsableName"@
}

/// Reads the zero-terminated file name of a gzip member header. The
/// terminator is part of the name. A name that is no valid UTF-8 reads as
/// `UnparsableName`.
pub fn read_name(data: &mut BitReader) -> (r: Result<String, Error>)
    ensures
        final(data).stream() == old(data).stream(),
        match spec_read_name(old(data).stream(), old(data).position()) {
            Ok((name, p)) => r is Ok && reads_as(r->Ok_0@, name, unparsable_name())
                && final(data).position() == p,
            Err(e) => r is Err && r->Err_0 == e,
        },
{
    let ghost bytes = data.stream();
    let ghost pos = data.position();
    let mut name_bytes: Vec<u8> = Vec::new();
    proof {
        data.lemma_position_bound();
    }
    if !data.is_aligned() {
        return Err(Error::Misaligned);
    }
    let ghost first = pos / 8;
    assert(name_bytes@ =~= bytes.subrange(first as int, first as int));
    loop
        invariant
            bytes == old(data).stream(),
            pos == old(data).position(),
            pos % 8 == 0,
            first == pos / 8,
            data.stream() == bytes,
            data.position() <= bit_len(bytes),
            data.position() == pos + 8 * name_bytes@.len(),
            name_bytes@ == bytes.subrange(first as int, (first + name_bytes@.len()) as int),
            zero_from(bytes, first) == zero_from(bytes, first + name_bytes@.len()),
        decreases bit_len(bytes) - data.position(),
    {
        let ghost here = first + name_bytes@.len();
        assert(data.position() / 8 == here);
        let byte: u8 = match data.read_byte() {
            Ok(b) => b,
            Err(e) => {
                return Err(e);
            },
        };
        name_bytes.push(byte);
        proof {
            data.lemma_position_bound();
            assert(name_bytes@ =~= bytes.subrange(first as int, (first + name_bytes@.len()) as int));
        }
        if byte == 0 {
            return Ok(string_or(name_bytes, "UnparsableName"));
        }
    }
}

/// The field of `n` bits at `pos`, as a number.
pub open spec fn field(bytes: Seq<u8>, pos: nat, n: nat) -> nat {
    crate::bit_reader::number_bits(bytes, pos as int, n)
}

/// The position of the body of a gzip member whose header stands at `pos`:
/// after the ten fixed bytes and the name, where the header has one.
/// `HeaderMismatch` where the magic number is not `1F 8B`, the method is not
/// 8, the `OS` byte names no system, or the header has an extra field, a
/// comment or a header checksum.
pub open spec fn spec_gzip_header(bytes: Seq<u8>, pos: nat) -> Result<nat, Error> {
    if pos + 16 > bit_len(bytes) {
        Err(Error::UnexpectedEof)
    } else if field(bytes, pos, 16) != 0x8B1F {
        Err(Error::HeaderMismatch)
    } else if pos + 24 > bit_len(bytes) {
        Err(Error::UnexpectedEof)
    } else if field(bytes, pos + 16, 8) != 8 {
        Err(Error::HeaderMismatch)
    } else if pos + 80 > bit_len(bytes) {
        Err(Error::UnexpectedEof)
    } else if Os::spec_from(field(bytes, pos + 72, 8) as u8) is None {
        Err(Error::HeaderMismatch)
    } else {
        let flags = field(bytes, pos + 24, 8) as u8;
        if Flag::Extra.is_set(flags) || Flag::Comment.is_set(flags) || Flag::Hcrc.is_set(flags) {
            Err(Error::HeaderMismatch)
        } else if Flag::Name.is_set(flags) {
            match spec_read_name(bytes, pos + 80) {
                Err(e) => Err(e),
                Ok((name, after)) => Ok(after),
            }
        } else {
            Ok(pos + 80)
        }
    }
}

/// A gzip member at `pos`: the header, the DEFLATE stream, the padding to
/// the byte boundary, the CRC-32 and the size of the output, each of 32
/// bits. `LengthMismatch` where the size is not that of the output. The
/// CRC-32 is read and not compared.
pub open spec fn spec_gzip(bytes: Seq<u8>, pos: nat, limit: nat) -> Step {
    match spec_gzip_header(bytes, pos) {
        Err(e) => Err(e),
        Ok(body) => match spec_inflate(bytes, body, limit) {
            Err(e) => Err(e),
            Ok((out, end)) => {
                let trailer = end + bits_to_boundary(end);
                if trailer + 64 > bit_len(bytes) {
                    Err(Error::UnexpectedEof)
                } else if field(bytes, trailer + 32, 32) != out.len() {
                    Err(Error::LengthMismatch)
                } else {
                    Ok((out, trailer + 64))
                }
            },
        },
    }
}

/// Reads the header of a gzip member.
fn read_header(data: &mut BitReader) -> (r: Result<(), Error>)
    ensures
        final(data).stream() == old(data).stream(),
        match spec_gzip_header(old(data).stream(), old(data).position()) {
            Ok(p) => r is Ok && final(data).position() == p,
            Err(e) => r == Err::<(), Error>(e),
        },
{
    let ghost bytes = data.stream();
    let ghost pos = data.position();
    proof {
        vstd::arithmetic::power2::lemma2_to64();
        lemma_number_bits_bound(bytes, pos as int, 16);
        lemma_number_bits_bound(bytes, (pos + 16) as int, 8);
        lemma_number_bits_bound(bytes, (pos + 24) as int, 8);
        lemma_number_bits_bound(bytes, (pos + 32) as int, 32);
        lemma_number_bits_bound(bytes, (pos + 64) as int, 8);
        lemma_number_bits_bound(bytes, (pos + 72) as int, 8);
    }
    let magic: u64 = match data.read_number(16) {
        Ok(v) => v,
        Err(e) => {
            return Err(e);
        },
    };
    if magic != 0x8B1F {
        return Err(Error::HeaderMismatch);
    }
    let method: u64 = match data.read_number(8) {
        Ok(v) => v,
        Err(e) => {
            return Err(e);
        },
    };
    if method != 0x08 {
        return Err(Error::HeaderMismatch);
    }
    let flag_byte: u64 = match data.read_number(8) {
        Ok(v) => v,
        Err(e) => {
            return Err(e);
        },
    };
    let time = data.read_number(32);
    if time.is_err() {
        return Err(Error::UnexpectedEof);
    }
    let xfl = data.read_number(8);
    if xfl.is_err() {
        return Err(Error::UnexpectedEof);
    }
    let os_byte: u64 = match data.read_number(8) {
        Ok(v) => v,
        Err(e) => {
            return Err(e);
        },
    };
    if Os::from(os_byte as u8).is_none() {
        return Err(Error::HeaderMismatch);
    }
    let flags: u8 = flag_byte as u8;
    if flags & 0b0000_0100 > 0 || flags & 0b0001_0000 > 0 || flags & 0b0000_0010 > 0 {
        return Err(Error::HeaderMismatch);
    }
    if flags & 0b0000_1000 > 0 {
        match read_name(data) {
            Ok(_) => {},
            Err(e) => {
                return Err(e);
            },
        }
    }
    Ok(())
}

/// Decompresses a gzip member from where `data` stands. Fails with
/// `OutputTooLarge` where the output would pass `limit` bytes.
pub fn rfc1952_with_limit(data: &mut BitReader, limit: usize) -> (r: Result<Vec<u8>, Error>)
    ensures
        final(data).stream() == old(data).stream(),
        match spec_gzip(old(data).stream(), old(data).position(), limit as nat) {
            Ok((out, p)) => r is Ok && r->Ok_0@ == out && final(data).position() == p,
            Err(e) => r == Err::<Vec<u8>, Error>(e),
        },
{
    match read_header(data) {
        Ok(()) => {},
        Err(e) => {
            return Err(e);
        },
    }
    let out = match rfc1951_with_limit(data, limit) {
        Ok(v) => v,
        Err(e) => {
            return Err(e);
        },
    };
    let skipped = data.align_to_byte();
    proof {
        vstd::arithmetic::power2::lemma2_to64();
        lemma_number_bits_bound(data.stream(), (data.position() + 32) as int, 32);
    }
    let crc32 = data.read_number(32);
    if crc32.is_err() {
        return Err(Error::UnexpectedEof);
    }
    let size: u64 = match data.read_number(32) {
        Ok(v) => v,
        Err(e) => {
            return Err(e);
        },
    };
    if out.len() as u64 != size {
        return Err(Error::LengthMismatch);
    }
    Ok(out)
}

/// Decompresses a gzip member (RFC 1952) from where `data` stands, with the
/// default cap on the output.
pub fn rfc1952(data: &mut BitReader) -> (r: Result<Vec<u8>, Error>)
    ensures
        final(data).stream() == old(data).stream(),
        match spec_gzip(old(data).stream(), old(data).position(), DEFAULT_OUTPUT_LIMIT as nat) {
            Ok((out, p)) => r is Ok && r->Ok_0@ == out && final(data).position() == p,
            Err(e) => r == Err::<Vec<u8>, Error>(e),
        },
{
    rfc1952_with_limit(data, DEFAULT_OUTPUT_LIMIT)
}

} // verus!
