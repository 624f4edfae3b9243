use vstd::prelude::*;

verus! {

/// Magic number every serialized graph buffer must open with.
pub const MAGIC: u32 = 0x424C4F4D;

/// The one wire-format version this decoder understands.
pub const VERSION: u16 = 1;

/// The fixed header is exactly 16 bytes.
pub const HEADER_SIZE: usize = 16;

/// Why a buffer was rejected. Decoding is all-or-nothing: any of these aborts
/// the whole decode and no partial graph is ever handed out.
#[derive(Clone, Copy, Debug, PartialEq, Eq, Structural)]
pub enum DecodeError {
    /// The buffer ends before a required field does.
    TruncatedBuffer,
    /// The first four bytes are not the expected magic number.
    BadMagic,
    /// The version field names a version this decoder does not speak.
    UnsupportedVersion,
    /// Label bytes are not valid UTF-8.
    InvalidText,
    /// A declared offset or length points past the end of its region.
    OutOfRange,
}

/// Feature bits of the header's flags field.
#[derive(Clone, Copy, Debug, PartialEq, Eq, Structural)]
pub enum Flags {
    /// No feature bits set.
    Unset,
    /// Payload compression (tolerated in the field, not consumed here).
    Compressed,
    /// A string table with one label per node follows the header.
    HasLabels,
    /// Edge weights (reserved, not currently consumed).
    HasWeights,
}

impl Flags {
    /// The bit this flag occupies in the header's flags field.
    pub open spec fn spec_mask(self) -> u16 {
        match self {
            Flags::Unset => 0,
            Flags::Compressed => 1,
            Flags::HasLabels => 2,
            Flags::HasWeights => 4,
        }
    }

    pub fn mask(self) -> (m: u16)
        ensures
            m == self.spec_mask(),
    {
        match self {
            Flags::Unset => 0,
            Flags::Compressed => 1,
            Flags::HasLabels => 2,
            Flags::HasWeights => 4,
        }
    }
}

/// The little-endian 16-bit value spelled by the two bytes at offset `i`.
pub open spec fn le16_at(s: Seq<u8>, i: int) -> u16
    recommends
        0 <= i,
        i + 2 <= s.len(),
{
    ((s[i] as int) + 0x100 * (s[i + 1] as int)) as u16
}

/// The little-endian 32-bit value spelled by the four bytes at offset `i`.
pub open spec fn le32_at(s: Seq<u8>, i: int) -> u32
    recommends
        0 <= i,
        i + 4 <= s.len(),
{
    ((s[i] as int) + 0x100 * (s[i + 1] as int) + 0x10000 * (s[i + 2] as int) + 0x1000000 * (s[
        i + 3
    ] as int)) as u32
}

/// Reads the little-endian u16 at byte offset `off`.
pub fn read_u16_le(bytes: &[u8], off: usize) -> (r: u16)
    requires
        off + 2 <= bytes@.len(),
    ensures
        r == le16_at(bytes@, off as int),
{
    (bytes[off] as u16) + 0x100 * (bytes[off + 1] as u16)
}

/// Reads the little-endian u32 at byte offset `off`.
pub fn read_u32_le(bytes: &[u8], off: usize) -> (r: u32)
    requires
        off + 4 <= bytes@.len(),
    ensures
        r == le32_at(bytes@, off as int),
{
    (bytes[off] as u32) + 0x100 * (bytes[off + 1] as u32) + 0x10000 * (bytes[off + 2] as u32)
        + 0x1000000 * (bytes[off + 3] as u32)
}

/// The fixed-size preamble of every serialized graph buffer.
#[derive(Clone, Copy, Debug)]
pub struct Header {
    pub magic: u32,
    pub version: u16,
    pub node_count: u32,
    pub edge_count: u32,
    pub flags: u16,
}

/// What parsing the first `HEADER_SIZE` bytes of `s` yields: the header fields,
/// or the first failure in checking order (length, magic, version).
pub open spec fn spec_parse_header(s: Seq<u8>) -> Result<Header, DecodeError> {
    if s.len() < HEADER_SIZE {
        Err(DecodeError::TruncatedBuffer)
    } else if le32_at(s, 0) != MAGIC {
        Err(DecodeError::BadMagic)
    } else if le16_at(s, 4) != VERSION {
        Err(DecodeError::UnsupportedVersion)
    } else {
        Ok(
            Header {
                magic: MAGIC,
                version: VERSION,
                node_count: le32_at(s, 6),
                edge_count: le32_at(s, 10),
                flags: le16_at(s, 14),
            },
        )
    }
}

impl Header {
    pub fn parse(bytes: &[u8]) -> (r: Result<Header, DecodeError>)
        ensures
            r == spec_parse_header(bytes@),
    {
        if bytes.len() < HEADER_SIZE {
            return Err(DecodeError::TruncatedBuffer);
        }
        let magic = read_u32_le(bytes, 0);
        if magic != MAGIC {
            return Err(DecodeError::BadMagic);
        }
        let version = read_u16_le(bytes, 4);
        if version != VERSION {
            return Err(DecodeError::UnsupportedVersion);
        }
        Ok(
            Header {
                magic,
                version,
                node_count: read_u32_le(bytes, 6),
                edge_count: read_u32_le(bytes, 10),
                flags: read_u16_le(bytes, 14),
            },
        )
    }

    pub fn has_flag(&self, flag: Flags) -> (r: bool)
        ensures
            r == ((self.flags & flag.spec_mask()) != 0),
    {
        (self.flags & flag.mask()) != 0
    }
}

} // verus!
