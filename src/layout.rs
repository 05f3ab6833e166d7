//! Fixed geometry of an image: the two volume offsets, the header magic and the
//! sector size, and the little-endian fields read from raw bytes.

use vstd::prelude::*;
use crate::error::XisoError;

verus! {

/// Offset of the volume header from the start of a volume.
pub const HEADER_OFFSET: u64 = 0x10000;

/// Start of the volume in the second disc layout (XGD3).
pub const OFFSET_XGD3: u64 = 0x2080000;

/// Start of the volume in the first disc layout (XGD2).
pub const OFFSET_XGD2: u64 = 0xFD90000;

/// Size of one sector, the unit of every on-disk address.
pub const SECTOR_SIZE: u32 = 2048;

/// Length of the magic that opens the volume header.
pub const MAGIC_LEN: usize = 20;

/// Bytes read at a candidate header position: the magic and two `u32` fields.
pub const HEADER_LEN: usize = 28;

/// The little-endian `u16` that starts at `p`.
pub open spec fn u16_le(b: Seq<u8>, p: int) -> int {
    b[p] + 256 * b[p + 1]
}

/// The little-endian `u32` that starts at `p`.
pub open spec fn u32_le(b: Seq<u8>, p: int) -> int {
    b[p] + 256 * b[p + 1] + 65536 * b[p + 2] + 16777216 * b[p + 3]
}

/// Reads the little-endian `u16` at `p`.
pub fn read_u16_le(b: &[u8], p: usize) -> (r: u16)
    requires
        p + 2 <= b@.len(),
    ensures
        r == u16_le(b@, p as int),
{
    b[p] as u16 + 256 * (b[p + 1] as u16)
}

/// Reads the little-endian `u32` at `p`.
pub fn read_u32_le(b: &[u8], p: usize) -> (r: u32)
    requires
        p + 4 <= b@.len(),
    ensures
        r == u32_le(b@, p as int),
{
    b[p] as u32 + 256 * (b[p + 1] as u32) + 65536 * (b[p + 2] as u32) + 16777216 * (b[p + 3] as u32)
}


/// Where the image's volume starts and where its root directory lies.
#[derive(Clone, Copy, Debug, PartialEq, Eq, Structural)]
pub struct IsoMeta {
    pub root_dir_sector: u32,
    pub root_dir_size: u32,
    pub root_offset: u64,
}

impl IsoMeta {
    /// The volume starts at one of the two known offsets.
    pub open spec fn valid(&self) -> bool {
        self.root_offset == OFFSET_XGD2 || self.root_offset == OFFSET_XGD3
    }
}

/// The header magic, "MICROSOFT*XBOX*MEDIA".
pub open spec fn magic() -> Seq<u8> {
    seq![77u8, 73, 67, 82, 79, 83, 79, 70, 84, 42, 88, 66, 79, 88, 42, 77, 69, 68, 73, 65]
}

fn magic_bytes() -> (r: Vec<u8>)
    ensures
        r@ == magic(),
{
    let r: Vec<u8> = vec![77u8, 73, 67, 82, 79, 83, 79, 70, 84, 42, 88, 66, 79, 88, 42, 77, 69, 68, 73, 65];
    assert(r@ =~= magic());
    r
}

/// The bytes read at a candidate header position form a header.
pub open spec fn header_matches(b: Seq<u8>) -> bool {
    b.len() >= HEADER_LEN && b.subrange(0, MAGIC_LEN as int) == magic()
}

/// The header that `b` holds, for a volume starting at `root_offset`.
pub open spec fn header_of(b: Seq<u8>, root_offset: u64) -> IsoMeta {
    IsoMeta {
        root_dir_sector: u32_le(b, 20) as u32,
        root_dir_size: u32_le(b, 24) as u32,
        root_offset,
    }
}

/// Where the header of the volume starting at `candidate` lies.
pub fn header_position(candidate: u64) -> (r: u64)
    requires
        candidate == OFFSET_XGD2 || candidate == OFFSET_XGD3,
    ensures
        r == candidate + HEADER_OFFSET,
{
    candidate + HEADER_OFFSET
}

/// Reads a header from the bytes found at a candidate header position: the
/// magic, then the root directory's sector and size.
pub fn read_header(b: &[u8], root_offset: u64) -> (r: Option<IsoMeta>)
    ensures
        r is Some <==> header_matches(b@),
        r matches Some(m) ==> m == header_of(b@, root_offset),
{
    if b.len() < HEADER_LEN {
        return None;
    }
    let expected = magic_bytes();
    let mut i: usize = 0;
    while i < MAGIC_LEN
        invariant
            i <= MAGIC_LEN,
            b@.len() >= HEADER_LEN,
            expected@ == magic(),
            forall|j: int| 0 <= j < i ==> b@[j] == magic()[j],
        decreases MAGIC_LEN - i,
    {
        if b[i] != expected[i] {
            assert(b@.subrange(0, MAGIC_LEN as int)[i as int] != magic()[i as int]);
            return None;
        }
        i = i + 1;
    }
    assert(b@.subrange(0, MAGIC_LEN as int) =~= magic());
    Some(IsoMeta { root_dir_sector: read_u32_le(b, 20), root_dir_size: read_u32_le(b, 24), root_offset })
}

/// Locates the volume: `first` holds the bytes read at the header position of
/// the first layout (XGD2), `second` those of the second (XGD3); a short or
/// empty slice stands for a read that failed. The first that holds a header
/// wins.
pub fn get_iso_meta(first: &[u8], second: &[u8]) -> (r: Result<IsoMeta, XisoError>)
    ensures
        header_matches(first@) ==> r == Ok::<IsoMeta, XisoError>(header_of(first@, OFFSET_XGD2)),
        !header_matches(first@) && header_matches(second@) ==> r == Ok::<IsoMeta, XisoError>(
            header_of(second@, OFFSET_XGD3),
        ),
        !header_matches(first@) && !header_matches(second@) ==> r == Err::<IsoMeta, XisoError>(
            XisoError::UnsupportedFormat,
        ),
        r matches Ok(m) ==> m.valid(),
{
    match read_header(first, OFFSET_XGD2) {
        Some(m) => Ok(m),
        None => match read_header(second, OFFSET_XGD3) {
            Some(m) => Ok(m),
            None => Err(XisoError::UnsupportedFormat),
        },
    }
}

} // verus!
