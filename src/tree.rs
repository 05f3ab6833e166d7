//! The directory tree that an image holds, stated over the bytes of its
//! sectors: each level is the listing of its directory's records, and each
//! directory carries the level of its own node table.

use vstd::prelude::*;
use crate::entry::{next_record, record_at, record_is_sentinel, record_positions, DirEntry, RECORD_HEADER_LEN};
use crate::layout::SECTOR_SIZE;
use crate::listing::{
    chars_lt, entry_before, entry_key, first_of_name, is_listing, lemma_before_distinct,
    lemma_chars_lt_asymmetric, lemma_chars_lt_irreflexive,
};

verus! {

/// An entry as read from its record: not a sentinel, children not decoded.
pub open spec fn fresh(e: DirEntry) -> bool {
    !e.is_sentinel() && e.subdir is None
}

/// A decoded tree: every level is a listing without sentinel records, and
/// exactly the directories carry their decoded children.
pub open spec fn tree_ok(s: Seq<DirEntry>) -> bool
    decreases s,
{
    &&& is_listing(s)
    &&& forall|i: int|
        #![trigger s[i]]
        0 <= i < s.len() ==> {
            &&& !s[i].is_sentinel()
            &&& (s[i].subdir is Some <==> s[i].is_directory())
            &&& (s[i].subdir matches Some(c) ==> tree_ok(c@))
        }
}

/// An entry of a decoded tree.
pub open spec fn resolved(e: DirEntry) -> bool {
    &&& !e.is_sentinel()
    &&& (e.subdir is Some <==> e.is_directory())
    &&& (e.subdir matches Some(c) ==> tree_ok(c@))
}

/// Sectors handed to a decoder, in order: each sector's number and bytes.
pub type SectorLog = Seq<(int, Seq<u8>)>;

/// The image `img` (sector number to bytes) holds the bytes of the log.
pub open spec fn agrees(log: SectorLog, img: spec_fn(int) -> Seq<u8>) -> bool {
    forall|k: int| 0 <= k < log.len() ==> img((#[trigger] log[k]).0) == log[k].1
}

/// `es` are the usable records of a sector's bytes, in order.
pub open spec fn sector_entries(bytes: Seq<u8>, es: Seq<DirEntry>) -> bool {
    &&& record_positions(bytes, 0) is Some
    &&& es.len() == record_positions(bytes, 0)->0.len()
    &&& forall|k: int|
        0 <= k < es.len() ==> record_at(#[trigger] es[k], bytes, record_positions(bytes, 0)->0[k])
}

/// `raw` are the records of the `count` sectors from `sector` on, sector
/// after sector.
pub open spec fn region_entries(img: spec_fn(int) -> Seq<u8>, sector: int, count: nat, raw: Seq<DirEntry>) -> bool
    decreases count,
{
    if count == 0 {
        raw.len() == 0
    } else {
        exists|k: int|
            #![trigger raw.subrange(0, k)]
            0 <= k <= raw.len() && region_entries(img, sector, (count - 1) as nat, raw.subrange(0, k))
                && sector_entries(img(sector + count - 1), raw.subrange(k, raw.len() as int))
    }
}

/// An entry with its children left out.
pub open spec fn strip(e: DirEntry) -> DirEntry {
    DirEntry { subdir: None, ..e }
}

/// `level` is the listing of the records `raw`, children aside: ordered, and
/// holding the first record of each exact name and no other.
pub open spec fn listing_of(raw: Seq<DirEntry>, level: Seq<DirEntry>) -> bool {
    &&& is_listing(level)
    &&& forall|j: int|
        #![trigger level[j]]
        0 <= j < level.len() ==> exists|i: int|
            #![trigger raw[i]]
            0 <= i < raw.len() && strip(level[j]) == raw[i] && first_of_name(raw, i)
    &&& forall|i: int|
        #![trigger raw[i]]
        0 <= i < raw.len() && first_of_name(raw, i) ==> exists|j: int|
            #![trigger level[j]]
            0 <= j < level.len() && strip(level[j]) == raw[i]
}

/// The number of sectors of a node table of `size` bytes.
pub open spec fn sectors_of(size: u32) -> nat {
    ((size as int + SECTOR_SIZE - 1) / SECTOR_SIZE as int) as nat
}

/// `level`, with the children of its directories, is what the image `img`
/// holds for the directory whose node table is `size` bytes from `sector` on.
pub open spec fn decodes(img: spec_fn(int) -> Seq<u8>, sector: u32, size: u32, level: Seq<DirEntry>) -> bool
    decreases level,
{
    &&& exists|raw: Seq<DirEntry>|
        #[trigger] region_entries(img, sector as int, sectors_of(size), raw) && listing_of(raw, level)
    &&& forall|i: int|
        #![trigger level[i]]
        0 <= i < level.len() ==> {
            &&& (level[i].subdir is Some <==> level[i].is_directory())
            &&& (level[i].subdir matches Some(c) ==> decodes(img, level[i].sector, level[i].size, c@))
        }
}

pub proof fn lemma_region_push(
    img: spec_fn(int) -> Seq<u8>,
    sector: int,
    count: nat,
    raw: Seq<DirEntry>,
    recs: Seq<DirEntry>,
)
    requires
        region_entries(img, sector, count, raw),
        sector_entries(img(sector + count), recs),
    ensures
        region_entries(img, sector, (count + 1) as nat, raw + recs),
{
    let all = raw + recs;
    let k = raw.len() as int;
    let n = (count + 1) as nat;
    assert(all.subrange(0, k) =~= raw);
    assert(all.subrange(k, all.len() as int) =~= recs);
    assert((n - 1) as nat == count);
    assert(sector + n - 1 == sector + count);
    assert(region_entries(img, sector, (n - 1) as nat, all.subrange(0, k)));
    assert(sector_entries(img(sector + n - 1), all.subrange(k, all.len() as int)));
}

pub proof fn lemma_empty_region(img: spec_fn(int) -> Seq<u8>, sector: u32)
    ensures
        decodes(img, sector, 0, Seq::empty()),
{
    assert(region_entries(img, sector as int, sectors_of(0), Seq::empty()));
    assert(listing_of(Seq::empty(), Seq::empty()));
}

pub proof fn lemma_listing_of_same_strip(raw: Seq<DirEntry>, s: Seq<DirEntry>, t: Seq<DirEntry>)
    requires
        listing_of(raw, s),
        s.len() == t.len(),
        forall|i: int| 0 <= i < s.len() ==> strip(#[trigger] s[i]) == strip(t[i]),
    ensures
        listing_of(raw, t),
{
    assert forall|i: int| 0 <= i < s.len() implies (#[trigger] s[i]).name@ == t[i].name@ by {
        assert(strip(s[i]).name == strip(t[i]).name);
    }
    lemma_listing_same_names(s, t);
    assert forall|j: int| #![trigger t[j]] 0 <= j < t.len() implies exists|i: int|
        #![trigger raw[i]]
        0 <= i < raw.len() && strip(t[j]) == raw[i] && first_of_name(raw, i) by {
        assert(strip(s[j]) == strip(t[j]));
    }
    assert forall|i: int| #![trigger raw[i]] 0 <= i < raw.len() && first_of_name(raw, i) implies exists|j: int|
        #![trigger t[j]]
        0 <= j < t.len() && strip(t[j]) == raw[i] by {
        let j = choose|j: int| #![trigger s[j]] 0 <= j < s.len() && strip(s[j]) == raw[i];
        assert(strip(s[j]) == strip(t[j]));
    }
}

pub proof fn lemma_listing_same_names(s: Seq<DirEntry>, t: Seq<DirEntry>)
    requires
        is_listing(s),
        s.len() == t.len(),
        forall|i: int| 0 <= i < s.len() ==> (#[trigger] s[i]).name@ == t[i].name@,
    ensures
        is_listing(t),
{
    assert forall|i: int, j: int| 0 <= i < j < t.len() implies entry_before(
        #[trigger] t[i],
        #[trigger] t[j],
    ) by {
        assert(entry_before(s[i], s[j]));
        assert(s[i].name@ == t[i].name@);
        assert(s[j].name@ == t[j].name@);
    }
}


/// Every level of a decoded tree holds each exact name once and ascends by
/// case-insensitive name; where no two of its names differ in letter case
/// alone, it ascends strictly.
pub proof fn lemma_decoded_level_order(s: Seq<DirEntry>)
    requires
        tree_ok(s),
    ensures
        forall|i: int, j: int| 0 <= i < j < s.len() ==> (#[trigger] s[i]).name@ != (#[trigger] s[j]).name@,
        forall|i: int, j: int|
            0 <= i < j < s.len() ==> !chars_lt(entry_key(#[trigger] s[j]), entry_key(#[trigger] s[i])),
        (forall|i: int, j: int|
            0 <= i < j < s.len() ==> entry_key(#[trigger] s[i]) != entry_key(#[trigger] s[j])
                || s[i].name@ == s[j].name@) ==> forall|i: int, j: int|
            0 <= i < j < s.len() ==> chars_lt(entry_key(#[trigger] s[i]), entry_key(#[trigger] s[j])),
{
    assert forall|i: int, j: int| 0 <= i < j < s.len() implies (#[trigger] s[i]).name@ != (#[trigger] s[j]).name@
        && !chars_lt(entry_key(s[j]), entry_key(s[i])) && (entry_key(s[i]) != entry_key(s[j])
        ==> chars_lt(entry_key(s[i]), entry_key(s[j]))) by {
        assert(entry_before(s[i], s[j]));
        lemma_before_distinct(s[i], s[j]);
        if chars_lt(entry_key(s[j]), entry_key(s[i])) {
            if chars_lt(entry_key(s[i]), entry_key(s[j])) {
                lemma_chars_lt_asymmetric(entry_key(s[i]), entry_key(s[j]));
            } else {
                lemma_chars_lt_irreflexive(entry_key(s[i]));
            }
        }
    }
}

/// The children of a directory of a decoded tree form a decoded tree.
pub proof fn lemma_decoded_children(s: Seq<DirEntry>, i: int)
    requires
        tree_ok(s),
        0 <= i < s.len(),
        s[i].is_directory(),
    ensures
        s[i].subdir matches Some(c) && tree_ok(c@),
{
}


proof fn lemma_positions_not_sentinel(s: Seq<u8>, p: int)
    requires
        record_positions(s, p) is Some,
    ensures
        forall|k: int|
            0 <= k < record_positions(s, p)->0.len() ==> {
                let q = #[trigger] record_positions(s, p)->0[k];
                0 <= q && q + RECORD_HEADER_LEN <= s.len() && !record_is_sentinel(s, q)
            },
    decreases s.len() + 4 - p,
{
    if p < 0 || p + RECORD_HEADER_LEN > s.len() || record_is_sentinel(s, p) {
    } else {
        let next = next_record(s, p);
        lemma_positions_not_sentinel(s, next);
        let rest = record_positions(s, next)->0;
        assert forall|k: int| 0 <= k < record_positions(s, p)->0.len() implies {
            let q = #[trigger] record_positions(s, p)->0[k];
            0 <= q && q + RECORD_HEADER_LEN <= s.len() && !record_is_sentinel(s, q)
        } by {
            if k > 0 {
                assert(record_positions(s, p)->0[k] == rest[k - 1]);
            }
        }
    }
}

proof fn lemma_region_not_sentinel(img: spec_fn(int) -> Seq<u8>, sector: int, count: nat, raw: Seq<DirEntry>)
    requires
        region_entries(img, sector, count, raw),
    ensures
        forall|k: int| 0 <= k < raw.len() ==> !(#[trigger] raw[k]).is_sentinel(),
    decreases count,
{
    if count > 0 {
        let k0 = choose|k: int|
            #![trigger raw.subrange(0, k)]
            0 <= k <= raw.len() && region_entries(img, sector, (count - 1) as nat, raw.subrange(0, k))
                && sector_entries(img(sector + count - 1), raw.subrange(k, raw.len() as int));
        lemma_region_not_sentinel(img, sector, (count - 1) as nat, raw.subrange(0, k0));
        let bytes = img(sector + count - 1);
        lemma_positions_not_sentinel(bytes, 0);
        let tail = raw.subrange(k0, raw.len() as int);
        assert forall|k: int| 0 <= k < raw.len() implies !(#[trigger] raw[k]).is_sentinel() by {
            if k < k0 {
                assert(raw[k] == raw.subrange(0, k0)[k]);
            } else {
                assert(raw[k] == tail[k - k0]);
                let q = record_positions(bytes, 0)->0[k - k0];
                assert(record_at(tail[k - k0], bytes, q));
            }
        }
    }
}

/// No record whose left or right pointer is the sentinel appears in a level
/// that an image holds.
pub proof fn lemma_decoded_without_sentinels(img: spec_fn(int) -> Seq<u8>, sector: u32, size: u32, level: Seq<DirEntry>)
    requires
        decodes(img, sector, size, level),
    ensures
        forall|i: int| 0 <= i < level.len() ==> !(#[trigger] level[i]).is_sentinel(),
{
    let raw = choose|raw: Seq<DirEntry>|
        #[trigger] region_entries(img, sector as int, sectors_of(size), raw) && listing_of(raw, level);
    lemma_region_not_sentinel(img, sector as int, sectors_of(size), raw);
    assert forall|i: int| 0 <= i < level.len() implies !(#[trigger] level[i]).is_sentinel() by {
        let k = choose|k: int| #![trigger raw[k]] 0 <= k < raw.len() && strip(level[i]) == raw[k] && first_of_name(raw, k);
        assert(strip(level[i]).left_offset == level[i].left_offset);
    }
}

} // verus!
