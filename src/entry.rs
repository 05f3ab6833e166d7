//! Directory records: their on-disk layout and how one sector of a directory's
//! node table is read into entries.

use vstd::prelude::*;
use vstd::slice::slice_subrange;
use crate::layout::{read_u16_le, read_u32_le, u16_le, u32_le};

verus! {

/// Bytes of a record before its name.
pub const RECORD_HEADER_LEN: usize = 14;

/// Child pointer value that marks an unused slot.
pub const SENTINEL: u16 = 0xFFFF;

/// Attribute bit of a directory.
pub const DIRECTORY_FLAG: u8 = 0x10;

/// One node of a directory tree: a file or a directory, and for a directory
/// the entries it holds once they are decoded.
#[derive(Debug)]
pub struct DirEntry {
    pub left_offset: u16,
    pub right_offset: u16,
    pub sector: u32,
    pub size: u32,
    pub attributes: u8,
    pub name_len: u8,
    pub name: String,
    pub subdir: Option<Vec<DirEntry>>,
}

/// What reading a record at a position gives.
pub enum ParsedRecord {
    /// No usable record: too few bytes are left for one, or it is a sentinel.
    End,
    /// The record's name runs past the end of the bytes.
    Broken,
    /// A record, and the position where the next one starts.
    Entry(DirEntry, usize),
}

/// What `String::from_utf8_lossy` makes of a name's bytes.
pub uninterp spec fn lossy_text(b: Seq<u8>) -> Seq<char>;

/// Relies on `String::from_utf8_lossy`: a text that depends on the bytes alone;
/// valid UTF-8, and so ASCII, is taken as it is.
#[verifier::external_body]
fn decode_name(b: &[u8]) -> (r: String)
    ensures
        r@ == lossy_text(b@),
        (forall|i: int| 0 <= i < b@.len() ==> b@[i] < 128) ==> r@ == b@.map_values(|c: u8| c as char),
{
    String::from_utf8_lossy(b).into_owned()
}

impl DirEntry {
    pub open spec fn is_directory(&self) -> bool {
        self.attributes & DIRECTORY_FLAG == DIRECTORY_FLAG
    }

    pub open spec fn is_sentinel(&self) -> bool {
        self.left_offset == SENTINEL || self.right_offset == SENTINEL
    }

    /// Whether the entry is a directory (attribute bit 0x10).
    pub fn is_dir(&self) -> (r: bool)
        ensures
            r == self.is_directory(),
    {
        self.attributes & DIRECTORY_FLAG == DIRECTORY_FLAG
    }

    /// Reads the fields of the record that starts at `pos` of one sector's
    /// bytes. Only the record is read: a directory comes back without its
    /// children, which the tree decoder attaches once their node table is read.
    pub fn read_record(s: &[u8], pos: usize) -> (r: ParsedRecord)
        requires
            s@.len() + 3 <= usize::MAX,
        ensures
            pos + RECORD_HEADER_LEN > s@.len() || record_is_sentinel(s@, pos as int) ==> r is End,
            pos + RECORD_HEADER_LEN <= s@.len() && !record_is_sentinel(s@, pos as int) ==> {
                if name_end(s@, pos as int) > s@.len() {
                    r is Broken
                } else {
                    &&& r matches ParsedRecord::Entry(e, next)
                    &&& record_at(e, s@, pos as int)
                    &&& next == name_end(s@, pos as int) + (4 - name_end(s@, pos as int) % 4) % 4
                }
            },
    {
        if pos > s.len() || s.len() - pos < RECORD_HEADER_LEN {
            return ParsedRecord::End;
        }
        let left_offset = read_u16_le(s, pos);
        let right_offset = read_u16_le(s, pos + 2);
        if left_offset == SENTINEL || right_offset == SENTINEL {
            return ParsedRecord::End;
        }
        let name_len = s[pos + 13];
        if s.len() - pos - RECORD_HEADER_LEN < name_len as usize {
            return ParsedRecord::Broken;
        }
        let start = pos + RECORD_HEADER_LEN;
        let end = start + name_len as usize;
        let name = decode_name(slice_subrange(s, start, end));
        let entry = DirEntry {
            left_offset,
            right_offset,
            sector: read_u32_le(s, pos + 4),
            size: read_u32_le(s, pos + 8),
            attributes: s[pos + 12],
            name_len,
            name,
            subdir: None,
        };
        let next = end + (4 - end % 4) % 4;
        ParsedRecord::Entry(entry, next)
    }
}

/// Whether the record at `p` carries the sentinel in a child pointer.
pub open spec fn record_is_sentinel(s: Seq<u8>, p: int) -> bool {
    u16_le(s, p) == SENTINEL || u16_le(s, p + 2) == SENTINEL
}

/// Where the name of the record at `p` ends.
pub open spec fn name_end(s: Seq<u8>, p: int) -> int {
    p + RECORD_HEADER_LEN + s[p + 13]
}

/// Where the record after the one at `p` starts: the end of its name, padded
/// to the next multiple of four from the sector's start.
pub open spec fn next_record(s: Seq<u8>, p: int) -> int {
    name_end(s, p) + (4 - name_end(s, p) % 4) % 4
}

/// `e` holds the fields of the record at `p`, and no children yet.
pub open spec fn record_at(e: DirEntry, s: Seq<u8>, p: int) -> bool {
    &&& e.left_offset == u16_le(s, p)
    &&& e.right_offset == u16_le(s, p + 2)
    &&& e.sector == u32_le(s, p + 4)
    &&& e.size == u32_le(s, p + 8)
    &&& e.attributes == s[p + 12]
    &&& e.name_len == s[p + 13]
    &&& e.name@ == lossy_text(s.subrange(p + RECORD_HEADER_LEN, name_end(s, p)))
    &&& e.subdir is None
}

/// The positions of the usable records of a sector from `p` on: records follow
/// one another until a sentinel or until too few bytes are left for one.
/// `None` where a record's name runs past the end of the sector.
pub open spec fn record_positions(s: Seq<u8>, p: int) -> Option<Seq<int>>
    decreases s.len() + 4 - p,
{
    if p < 0 || p + RECORD_HEADER_LEN > s.len() || record_is_sentinel(s, p) {
        Some(Seq::empty())
    } else if name_end(s, p) > s.len() {
        None
    } else {
        match record_positions(s, next_record(s, p)) {
            Some(rest) => Some(seq![p] + rest),
            None => None,
        }
    }
}


/// `rest` after the positions already read.
pub open spec fn after(done: Seq<int>, rest: Option<Seq<int>>) -> Option<Seq<int>> {
    match rest {
        Some(r) => Some(done + r),
        None => None,
    }
}

/// Reads the usable records of one sector, in the order they are stored: from
/// the sector's start, each record followed by the next at the padded offset,
/// until a sentinel record or until too few bytes are left for a record.
/// `None` where a record's name runs past the end of the sector.
pub fn scan_sector(s: &[u8]) -> (r: Option<Vec<DirEntry>>)
    requires
        s@.len() + 3 <= usize::MAX,
    ensures
        record_positions(s@, 0) is None <==> r is None,
        r matches Some(v) ==> {
            let ps = record_positions(s@, 0)->0;
            &&& v@.len() == ps.len()
            &&& forall|i: int| 0 <= i < ps.len() ==> record_at(#[trigger] v@[i], s@, ps[i])
            &&& forall|i: int| 0 <= i < v@.len() ==> !(#[trigger] v@[i]).is_sentinel()
        },
{
    let mut out: Vec<DirEntry> = Vec::new();
    let mut pos: usize = 0;
    let ghost mut done: Seq<int> = Seq::empty();
    loop
        invariant
            s@.len() + 3 <= usize::MAX,
            pos <= s@.len() + 3,
            out@.len() == done.len(),
            forall|i: int| 0 <= i < done.len() ==> record_at(#[trigger] out@[i], s@, done[i]),
            forall|i: int| 0 <= i < out@.len() ==> !(#[trigger] out@[i]).is_sentinel(),
            record_positions(s@, 0) == after(done, record_positions(s@, pos as int)),
        decreases s@.len() + 4 - pos,
    {
        match DirEntry::read_record(s, pos) {
            ParsedRecord::End => {
                assert(done + Seq::<int>::empty() =~= done);
                return Some(out);
            },
            ParsedRecord::Broken => {
                return None;
            },
            ParsedRecord::Entry(e, next) => {
                proof {
                    match record_positions(s@, next as int) {
                        Some(rest) => {
                            assert(done.push(pos as int) + rest =~= done + (seq![pos as int] + rest));
                        },
                        None => {},
                    }
                    done = done.push(pos as int);
                }
                out.push(e);
                pos = next;
            },
        }
    }
}

} // verus!
