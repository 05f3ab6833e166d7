//! Decoding a directory tree. Reading the image is left to the caller: the
//! decoder says which sector it needs next, is handed that sector's bytes, and
//! builds the tree depth first, each level ordered as a listing.

use vstd::prelude::*;
use crate::entry::{record_positions, scan_sector, DirEntry};
use crate::error::XisoError;
use crate::layout::{IsoMeta, SECTOR_SIZE};
use crate::listing::{first_of_name, is_listing, normalize_listing};
use crate::tree::{
    sector_entries, agrees, decodes, fresh, lemma_empty_region, lemma_listing_of_same_strip, lemma_listing_same_names,
    lemma_region_push, listing_of, region_entries, resolved, sectors_of, strip, tree_ok, SectorLog,
};

verus! {

/// The number of sectors that `size` bytes take: `size / SECTOR_SIZE`,
/// rounded up.
pub fn sector_count(size: u32) -> (r: u32)
    ensures
        r as int == (size as int + SECTOR_SIZE - 1) / SECTOR_SIZE as int,
{
    let mut count = size / SECTOR_SIZE;
    if size % SECTOR_SIZE > 0 {
        count = count + 1;
    }
    count
}

/// One level of the tree under construction: the entries already resolved,
/// the directory whose children are being decoded, and the entries still to
/// look at, in the order of the listing.
struct Frame {
    sector: u32,
    size: u32,
    records: Ghost<Seq<DirEntry>>,
    done: Vec<DirEntry>,
    open: Option<DirEntry>,
    rest: Vec<DirEntry>,
}

spec fn open_seq(o: Option<DirEntry>) -> Seq<DirEntry> {
    match o {
        Some(d) => seq![d],
        None => Seq::empty(),
    }
}

spec fn frame_ok(f: Frame) -> bool {
    &&& is_listing(f.done@ + open_seq(f.open) + f.rest@)
    &&& forall|i: int| 0 <= i < f.done@.len() ==> resolved(#[trigger] f.done@[i])
    &&& forall|i: int| 0 <= i < f.rest@.len() ==> fresh(#[trigger] f.rest@[i])
    &&& (f.open matches Some(d) ==> fresh(d) && d.is_directory())
}

/// An entry whose children, if it is a directory, are decoded from `img`.
spec fn done_under(img: spec_fn(int) -> Seq<u8>, e: DirEntry) -> bool {
    &&& (e.subdir is Some <==> e.is_directory())
    &&& (e.subdir matches Some(c) ==> decodes(img, e.sector, e.size, c@))
}

/// The level of `f` is the listing of its directory's records in `img`, and
/// the children of its resolved entries are decoded from `img`.
spec fn frame_holds(img: spec_fn(int) -> Seq<u8>, f: Frame) -> bool {
    &&& region_entries(img, f.sector as int, sectors_of(f.size), f.records@)
    &&& listing_of(f.records@, f.done@ + open_seq(f.open) + f.rest@)
    &&& forall|i: int| 0 <= i < f.done@.len() ==> done_under(img, #[trigger] f.done@[i])
}

spec fn total_rest(s: Seq<Frame>) -> nat
    decreases s.len(),
{
    if s.len() == 0 {
        0
    } else {
        total_rest(s.drop_last()) + s.last().rest@.len()
    }
}

/// The entries still to look at, level by level from the deepest up: each
/// level's entries after the directory it is decoding.
spec fn rests(s: Seq<Frame>) -> Seq<DirEntry>
    decreases s.len(),
{
    if s.len() == 0 {
        Seq::empty()
    } else {
        s.last().rest@ + rests(s.drop_last())
    }
}

proof fn lemma_rests_push(s: Seq<Frame>, f: Frame)
    ensures
        rests(s.push(f)) == f.rest@ + rests(s),
{
    assert(s.push(f).drop_last() =~= s);
}

/// A directory whose node table has to be read: its children are not decoded
/// without a read.
pub open spec fn wants_read(e: DirEntry) -> bool {
    e.is_directory() && e.size > 0
}

/// Where the depth-first walk over the entries `seq` (all without children)
/// stops: at the first directory that has to be read, which is then wanted
/// with the entries after it still pending; or, where there is none, at the
/// complete tree.
pub open spec fn next_after(d: TreeDecoder, seq: Seq<DirEntry>) -> bool {
    ||| d.decoded() is Some && d.wanted() is None && forall|j: int|
        0 <= j < seq.len() ==> !wants_read(#[trigger] seq[j])
    ||| exists|k: int|
        #![trigger seq[k]]
        0 <= k < seq.len() && wants_read(seq[k]) && (forall|j: int| 0 <= j < k ==> !wants_read(#[trigger] seq[j]))
            && d.wanted() == Some(d.volume_offset() + seq[k].sector * SECTOR_SIZE)
            && d.wanted_sector() == seq[k].sector && d.sectors_left() == sectors_of(seq[k].size)
            && d.pending() == seq.subrange(k + 1, seq.len() as int) && d.records() == Seq::<DirEntry>::empty()
}

/// What the caller does next for a decoder.
pub enum DecodeStep {
    /// Read the sector that starts at this absolute offset of the image.
    ReadSector { offset: u64 },
    /// The tree is complete.
    Finished,
}

/// A directory tree being decoded.
pub struct TreeDecoder {
    root_offset: u64,
    root_sector: u32,
    root_size: u32,
    log: Ghost<SectorLog>,
    sector: u32,
    size: u32,
    count: u32,
    loaded: u32,
    raw: Vec<DirEntry>,
    stack: Vec<Frame>,
    result: Option<Vec<DirEntry>>,
    dropped: u64,
}

impl TreeDecoder {
    pub closed spec fn wf(&self) -> bool {
        &&& self.root_offset == crate::layout::OFFSET_XGD2 || self.root_offset
            == crate::layout::OFFSET_XGD3
        &&& forall|i: int|
            0 <= i < self.stack@.len() ==> frame_ok(#[trigger] self.stack@[i])
                && self.stack@[i].open is Some
        &&& forall|i: int| 0 <= i < self.raw@.len() ==> fresh(#[trigger] self.raw@[i])
        &&& match self.result {
            Some(t) => self.stack@.len() == 0 && tree_ok(t@),
            None => self.loaded < self.count,
        }
        &&& self.images_hold()
    }

    /// Where the directory of the level at depth `i` lies: the root, or the
    /// directory that the level above is decoding.
    spec fn region_at(&self, i: int) -> (u32, u32) {
        if i == 0 {
            (self.root_sector, self.root_size)
        } else {
            (self.stack@[i - 1].open->0.sector, self.stack@[i - 1].open->0.size)
        }
    }

    /// What holds of every image that agrees with the sectors handed over.
    spec fn images_hold(&self) -> bool {
        &&& forall|i: int|
            #![trigger self.stack@[i]]
            0 <= i < self.stack@.len() ==> (self.stack@[i].sector, self.stack@[i].size) == self.region_at(i)
        &&& forall|i: int, img: spec_fn(int) -> Seq<u8>|
            #![trigger frame_holds(img, self.stack@[i])]
            0 <= i < self.stack@.len() && agrees(self.log@, img) ==> frame_holds(img, self.stack@[i])
        &&& match self.result {
            Some(t) => forall|img: spec_fn(int) -> Seq<u8>|
                #[trigger] agrees(self.log@, img) ==> decodes(img, self.root_sector, self.root_size, t@),
            None => {
                &&& (self.sector, self.size) == self.region_at(self.stack@.len() as int)
                &&& self.count == sectors_of(self.size)
                &&& forall|img: spec_fn(int) -> Seq<u8>|
                    #[trigger] agrees(self.log@, img) ==> region_entries(
                        img,
                        self.sector as int,
                        self.loaded as nat,
                        self.raw@,
                    )
            },
        }
    }

    /// The sectors handed over so far, in order.
    pub closed spec fn log(&self) -> SectorLog {
        self.log@
    }

    /// Where the volume starts in the image.
    pub closed spec fn volume_offset(&self) -> int {
        self.root_offset as int
    }

    /// The sector and size of the root directory's node table.
    pub closed spec fn root(&self) -> (u32, u32) {
        (self.root_sector, self.root_size)
    }

    /// The absolute offset of the sector wanted next; `None` once the tree is
    /// complete.
    pub closed spec fn wanted(&self) -> Option<int> {
        if self.result is None {
            Some(self.root_offset + (self.sector + self.loaded) * SECTOR_SIZE)
        } else {
            None
        }
    }

    /// The sector number of the wanted sector.
    pub closed spec fn wanted_sector(&self) -> int {
        self.sector + self.loaded
    }

    /// Sectors of the directory being read that are still to come, the wanted
    /// one included.
    pub closed spec fn sectors_left(&self) -> int {
        self.count - self.loaded
    }

    /// The entries still to look at once the directory being read is decoded,
    /// in depth-first order: those after it in its level, then those after
    /// its parent, and so on up to the root.
    pub closed spec fn pending(&self) -> Seq<DirEntry> {
        rests(self.stack@)
    }

    /// The records read so far from the directory being read.
    pub closed spec fn records(&self) -> Seq<DirEntry> {
        self.raw@
    }

    /// The number of records left out as duplicates so far.
    pub closed spec fn dropped_count(&self) -> int {
        self.dropped as int
    }

    /// The decoded tree, once complete.
    pub closed spec fn decoded(&self) -> Option<Seq<DirEntry>> {
        match self.result {
            Some(t) => Some(t@),
            None => None,
        }
    }

    /// Starts decoding the directory whose node table is `size` bytes from
    /// `sector` on. Its first sector is wanted first.
    pub fn new(meta: &IsoMeta, sector: u32, size: u32) -> (r: TreeDecoder)
        requires
            meta.valid(),
        ensures
            r.wf(),
            r.root() == (sector, size),
            r.volume_offset() == meta.root_offset,
            r.log() == Seq::<(int, Seq<u8>)>::empty(),
            size > 0 ==> r.wanted() == Some(meta.root_offset + sector * SECTOR_SIZE),
            size > 0 ==> r.sectors_left() == (size as int + SECTOR_SIZE - 1) / SECTOR_SIZE as int,
            size > 0 ==> r.wanted_sector() == sector,
            size > 0 ==> r.pending() == Seq::<DirEntry>::empty() && r.records() == Seq::<DirEntry>::empty(),
            size == 0 ==> r.decoded() == Some(Seq::<DirEntry>::empty()),
            size == 0 ==> r.wanted() is None,
    {
        let count = sector_count(size);
        let mut d = TreeDecoder {
            root_offset: meta.root_offset,
            root_sector: sector,
            root_size: size,
            log: Ghost(Seq::empty()),
            sector,
            size,
            count,
            loaded: 0,
            raw: Vec::new(),
            stack: Vec::new(),
            result: None,
            dropped: 0,
        };
        if count == 0 {
            d.result = Some(Vec::new());
            assert(tree_ok(Seq::<DirEntry>::empty()));
            proof {
                assert forall|img: spec_fn(int) -> Seq<u8>| #[trigger] agrees(d.log@, img) implies decodes(
                    img,
                    sector,
                    size,
                    Seq::<DirEntry>::empty(),
                ) by {
                    lemma_empty_region(img, sector);
                }
                assert(d.result->0@ =~= Seq::<DirEntry>::empty());
            }
        } else {
            assert forall|img: spec_fn(int) -> Seq<u8>| #[trigger] agrees(d.log@, img) implies region_entries(
                img,
                sector as int,
                0,
                d.raw@,
            ) by {}
        }
        d
    }

    /// What the caller does next.
    pub fn next_step(&self) -> (r: DecodeStep)
        requires
            self.wf(),
        ensures
            self.wanted() matches Some(o) ==> r == (DecodeStep::ReadSector { offset: o as u64 }),
            self.wanted() matches Some(o) ==> o == self.volume_offset() + self.wanted_sector() * SECTOR_SIZE,
            self.wanted() is None ==> r is Finished,
    {
        if self.result.is_some() {
            return DecodeStep::Finished;
        }
        let at = self.sector as u64 + self.loaded as u64;
        assert(at * 2048 <= 0x2_0000_0000 * 2048) by (nonlinear_arith)
            requires
                at <= 0x2_0000_0000,
        ;
        DecodeStep::ReadSector { offset: self.root_offset + at * SECTOR_SIZE as u64 }
    }

    /// Hands over the bytes of the wanted sector. A record that runs past the
    /// end of the sector is an error naming the sector.
    pub fn feed_sector(&mut self, bytes: &[u8]) -> (r: Result<(), XisoError>)
        requires
            old(self).wf(),
            old(self).wanted() is Some,
            bytes@.len() == SECTOR_SIZE,
        ensures
            r is Err <==> record_positions(bytes@, 0) is None,
            r is Err ==> r == Err::<(), XisoError>(
                XisoError::BrokenDirectory { sector: old(self).wanted_sector() as u64 },
            ),
            r is Ok ==> final(self).wf(),
            r is Ok ==> final(self).log() == old(self).log().push((old(self).wanted_sector(), bytes@)),
            r is Ok ==> final(self).root() == old(self).root(),
            r is Ok ==> final(self).volume_offset() == old(self).volume_offset(),
            r is Ok && old(self).sectors_left() > 1 ==> final(self).wanted() == Some(
                old(self).wanted()->0 + SECTOR_SIZE,
            ) && final(self).sectors_left() == old(self).sectors_left() - 1 && final(self).wanted_sector()
                == old(self).wanted_sector() + 1 && final(self).pending() == old(self).pending() && exists|
                recs: Seq<DirEntry>,
            |
                #![trigger sector_entries(bytes@, recs)]
                sector_entries(bytes@, recs) && final(self).records() == old(self).records() + recs,
            r is Ok && old(self).sectors_left() == 1 ==> exists|recs: Seq<DirEntry>, level: Seq<DirEntry>|
                #![trigger listing_of(old(self).records() + recs, level)]
                sector_entries(bytes@, recs) && listing_of(old(self).records() + recs, level) && (forall|j: int|
                    0 <= j < level.len() ==> (#[trigger] level[j]).subdir is None) && next_after(
                    *final(self),
                    level + old(self).pending(),
                ),
    {
        let at = self.sector as u64 + self.loaded as u64;
        let records = match scan_sector(bytes) {
            Some(v) => v,
            None => {
                return Err(XisoError::BrokenDirectory { sector: at });
            },
        };
        let mut records = records;
        let ghost old_raw = self.raw@;
        let ghost recs = records@;
        let ghost old_log = self.log@;
        let ghost s_no = self.sector as int + self.loaded as int;
        self.raw.append(&mut records);
        proof {
            assert(self.raw@ == old_raw + recs);
            assert forall|i: int| 0 <= i < self.raw@.len() implies fresh(#[trigger] self.raw@[i]) by {
                if i >= old_raw.len() {
                    assert(self.raw@[i] == recs[i - old_raw.len()]);
                }
            }
            self.log@ = old_log.push((s_no, bytes@));
            assert forall|img: spec_fn(int) -> Seq<u8>| #[trigger] agrees(self.log@, img) implies agrees(
                old_log,
                img,
            ) by {
                assert forall|k: int| 0 <= k < old_log.len() implies img((#[trigger] old_log[k]).0) == old_log[k].1 by {
                    assert(self.log@[k] == old_log[k]);
                }
            }
            assert forall|img: spec_fn(int) -> Seq<u8>| #[trigger] agrees(self.log@, img) implies region_entries(
                img,
                self.sector as int,
                (self.loaded + 1) as nat,
                self.raw@,
            ) by {
                assert(agrees(old_log, img));
                assert(self.log@[old_log.len() as int] == (s_no, bytes@));
                assert(img(s_no) == bytes@);
                lemma_region_push(img, self.sector as int, self.loaded as nat, old_raw, recs);
            }
            assert forall|i: int, img: spec_fn(int) -> Seq<u8>|
                0 <= i < self.stack@.len() && agrees(self.log@, img) implies #[trigger] frame_holds(
                img,
                self.stack@[i],
            ) by {
                assert(agrees(old_log, img));
            }
        }
        proof {
            assert(sector_entries(bytes@, recs));
        }
        let ghost pend = self.pending();
        let ghost raw_all = self.raw@;
        self.loaded = self.loaded + 1;
        if self.loaded == self.count {
            self.finish_region();
            proof {
                let lv = choose|lv: Seq<DirEntry>|
                    #![trigger listing_of(raw_all, lv)]
                    listing_of(raw_all, lv) && (forall|j: int| 0 <= j < lv.len() ==> (#[trigger] lv[j]).subdir is None)
                        && next_after(*self, lv + pend);
                assert(raw_all == old(self).records() + recs);
                assert(pend == old(self).pending());
                assert(listing_of(old(self).records() + recs, lv));
            }
        }
        Ok(())
    }

    /// How many records were left out so far because an earlier record of
    /// their directory has the same exact name.
    pub fn duplicates_dropped(&self) -> (r: u64)
        ensures
            r == self.dropped_count(),
    {
        self.dropped
    }

    /// The decoded tree.
    pub fn into_listing(self) -> (r: Vec<DirEntry>)
        requires
            self.wf(),
            self.wanted() is None,
        ensures
            tree_ok(r@),
            Some(r@) == self.decoded(),
            forall|img: spec_fn(int) -> Seq<u8>|
                #[trigger] agrees(self.log(), img) ==> decodes(img, self.root().0, self.root().1, r@),
    {
        match self.result {
            Some(t) => t,
            None => Vec::new(),
        }
    }

    /// All sectors of the directory being read are in.
    spec fn region_complete(&self) -> bool {
        &&& self.root_offset == crate::layout::OFFSET_XGD2 || self.root_offset == crate::layout::OFFSET_XGD3
        &&& self.result is None
        &&& self.loaded == self.count
        &&& forall|i: int|
            0 <= i < self.stack@.len() ==> frame_ok(#[trigger] self.stack@[i]) && self.stack@[i].open is Some
        &&& forall|i: int| 0 <= i < self.raw@.len() ==> fresh(#[trigger] self.raw@[i])
        &&& forall|i: int|
            #![trigger self.stack@[i]]
            0 <= i < self.stack@.len() ==> (self.stack@[i].sector, self.stack@[i].size) == self.region_at(i)
        &&& forall|i: int, img: spec_fn(int) -> Seq<u8>|
            #![trigger frame_holds(img, self.stack@[i])]
            0 <= i < self.stack@.len() && agrees(self.log@, img) ==> frame_holds(img, self.stack@[i])
        &&& (self.sector, self.size) == self.region_at(self.stack@.len() as int)
        &&& self.count == sectors_of(self.size)
        &&& forall|img: spec_fn(int) -> Seq<u8>|
            #[trigger] agrees(self.log@, img) ==> region_entries(img, self.sector as int, self.loaded as nat, self.raw@)
    }

    /// The records of the directory just read are ordered into its level; the
    /// walk then goes on to the next directory whose children are not decoded,
    /// or ends.
    #[verifier::rlimit(60)]
    fn finish_region(&mut self)
        requires
            old(self).region_complete(),
        ensures
            final(self).wf(),
            final(self).root_offset == old(self).root_offset,
            final(self).log@ == old(self).log@,
            final(self).root() == old(self).root(),
            exists|level: Seq<DirEntry>|
                #![trigger listing_of(old(self).raw@, level)]
                listing_of(old(self).raw@, level) && (forall|j: int|
                    0 <= j < level.len() ==> (#[trigger] level[j]).subdir is None) && next_after(
                    *final(self),
                    level + rests(old(self).stack@),
                ),
    {
        let ghost log = self.log@;
        assert(log == old(self).log@);
        let mut raw: Vec<DirEntry> = Vec::new();
        std::mem::swap(&mut raw, &mut self.raw);
        assert(self.log@ == log);
        assert(self.stack@ == old(self).stack@);
        let read = raw.len();
        let listing = normalize_listing(raw);
        self.dropped = self.dropped.saturating_add((read - listing.len()) as u64);
        proof {
            assert forall|i: int| 0 <= i < listing@.len() implies fresh(#[trigger] listing@[i]) by {
                assert(listing@.contains(listing@[i]));
            }
            assert(Seq::<DirEntry>::empty() + open_seq(None) + listing@ =~= listing@);
            assert forall|j: int| 0 <= j < listing@.len() implies strip(#[trigger] listing@[j]) == listing@[j] by {
                assert(fresh(listing@[j]));
            }
            assert(listing_of(raw@, listing@)) by {
                assert forall|j: int| #![trigger listing@[j]] 0 <= j < listing@.len() implies exists|i: int|
                    #![trigger raw@[i]]
                    0 <= i < raw@.len() && strip(listing@[j]) == raw@[i] && first_of_name(raw@, i) by {
                    assert(listing@.contains(listing@[j]));
                }
                assert forall|i: int| #![trigger raw@[i]] 0 <= i < raw@.len() && first_of_name(raw@, i) implies exists|j: int|
                    #![trigger listing@[j]]
                    0 <= j < listing@.len() && strip(listing@[j]) == raw@[i] by {
                    assert(listing@.contains(raw@[i]));
                }
            }
        }
        let mut frame = Frame {
            sector: self.sector,
            size: self.size,
            records: Ghost(raw@),
            done: Vec::new(),
            open: None,
            rest: listing,
        };
        proof {
            assert forall|img: spec_fn(int) -> Seq<u8>| #[trigger] agrees(log, img) implies frame_holds(img, frame) by {
                assert(frame.done@ + open_seq(frame.open) + frame.rest@ =~= listing@);
            }
        }
        let ghost listed = listing@;
        let ghost walk = listing@ + rests(self.stack@);
        let ghost mut k0: int = 0;
        assert(walk.subrange(0, walk.len() as int) =~= walk);
        loop
            invariant
                listing_of(old(self).raw@, listed),
                forall|j: int| 0 <= j < listed.len() ==> (#[trigger] listed[j]).subdir is None,
                walk == listed + rests(old(self).stack@),
                0 <= k0 <= walk.len(),
                frame.rest@ + rests(self.stack@) == walk.subrange(k0, walk.len() as int),
                forall|j: int| 0 <= j < k0 ==> !wants_read(#[trigger] walk[j]),
                self.root_offset == old(self).root_offset,
                self.root_sector == old(self).root_sector,
                self.root_size == old(self).root_size,
                self.log@ == log,
                log == old(self).log@,
                self.root_offset == crate::layout::OFFSET_XGD2 || self.root_offset
                    == crate::layout::OFFSET_XGD3,
                self.result is None,
                self.raw@.len() == 0,
                forall|i: int|
                    0 <= i < self.stack@.len() ==> frame_ok(#[trigger] self.stack@[i])
                        && self.stack@[i].open is Some,
                forall|i: int|
                    #![trigger self.stack@[i]]
                    0 <= i < self.stack@.len() ==> (self.stack@[i].sector, self.stack@[i].size)
                        == self.region_at(i),
                forall|i: int, img: spec_fn(int) -> Seq<u8>|
                    #![trigger frame_holds(img, self.stack@[i])]
                    0 <= i < self.stack@.len() && agrees(log, img) ==> frame_holds(img, self.stack@[i]),
                frame_ok(frame),
                frame.open is None,
                (frame.sector, frame.size) == self.region_at(self.stack@.len() as int),
                forall|img: spec_fn(int) -> Seq<u8>| #[trigger] agrees(log, img) ==> frame_holds(img, frame),
            decreases total_rest(self.stack@) + frame.rest@.len(), self.stack@.len(),
        {
            if frame.rest.len() > 0 {
                let ghost before = frame.done@ + open_seq(frame.open) + frame.rest@;
                let ghost f0 = frame;
                let ghost tail = frame.rest@;
                proof {
                    assert((tail + rests(self.stack@))[0] == tail[0]);
                    assert(walk.subrange(k0, walk.len() as int).len() > 0);
                    assert(walk.subrange(k0, walk.len() as int)[0] == walk[k0]);
                }
                let mut e = frame.rest.remove(0);
                assert(fresh(e));
                proof {
                    assert(walk[k0] == e);
                    assert(frame.rest@ + rests(self.stack@) =~= walk.subrange(k0 + 1, walk.len() as int)) by {
                        assert(tail.drop_first() == frame.rest@);
                        assert((tail + rests(self.stack@)).drop_first() =~= tail.drop_first() + rests(self.stack@));
                        assert(walk.subrange(k0, walk.len() as int).drop_first() =~= walk.subrange(k0 + 1, walk.len() as int));
                    }
                }
                if !e.is_dir() {
                    proof {
                        k0 = k0 + 1;
                    }
                    frame.done.push(e);
                    proof {
                        assert(frame.done@ + open_seq(frame.open) + frame.rest@ =~= before);
                        assert forall|img: spec_fn(int) -> Seq<u8>| #[trigger] agrees(log, img) implies frame_holds(img, frame) by {
                            assert(frame_holds(img, f0));
                            assert forall|i: int| 0 <= i < frame.done@.len() implies done_under(img, #[trigger] frame.done@[i]) by {
                                if i < f0.done@.len() {
                                    assert(frame.done@[i] == f0.done@[i]);
                                }
                            }
                        }
                    }
                } else {
                    let count = sector_count(e.size);
                    if count == 0 {
                        proof {
                            k0 = k0 + 1;
                        }
                        let ghost e0 = e;
                        e.subdir = Some(Vec::new());
                        assert(tree_ok(Seq::<DirEntry>::empty()));
                        frame.done.push(e);
                        proof {
                            let now = frame.done@ + open_seq(frame.open) + frame.rest@;
                            assert(now.len() == before.len());
                            assert forall|i: int| 0 <= i < now.len() implies (#[trigger] before[i]).name@ == now[i].name@
                                && strip(before[i]) == strip(now[i]) by {
                                if i == frame.done@.len() - 1 {
                                    assert(before[i] == e0);
                                } else {
                                    assert(before[i] == now[i]);
                                }
                            }
                            lemma_listing_same_names(before, now);
                            assert forall|img: spec_fn(int) -> Seq<u8>| #[trigger] agrees(log, img) implies frame_holds(img, frame) by {
                                assert(frame_holds(img, f0));
                                lemma_listing_of_same_strip(f0.records@, before, now);
                                assert(e.size == 0);
                                lemma_empty_region(img, e.sector);
                                assert(e.subdir->0@ =~= Seq::<DirEntry>::empty());
                                assert forall|i: int| 0 <= i < frame.done@.len() implies done_under(img, #[trigger] frame.done@[i]) by {
                                    if i < f0.done@.len() {
                                        assert(frame.done@[i] == f0.done@[i]);
                                    }
                                }
                            }
                        }
                    } else {
                        let sector = e.sector;
                        let size = e.size;
                        frame.open = Some(e);
                        proof {
                            assert(frame.done@ + open_seq(frame.open) + frame.rest@ =~= before);
                            assert forall|img: spec_fn(int) -> Seq<u8>| #[trigger] agrees(log, img) implies frame_holds(img, frame) by {
                                assert(frame_holds(img, f0));
                            }
                        }
                        let ghost old_stack = self.stack@;
                        self.stack.push(frame);
                        self.sector = sector;
                        self.size = size;
                        self.count = count;
                        self.loaded = 0;
                        proof {
                            lemma_rests_push(old_stack, self.stack@.last());
                            assert(self.stack@ =~= old_stack.push(self.stack@.last()));
                            assert(count > 0);
                            assert(size > 0);
                            assert(wants_read(walk[k0]));
                            assert(self.pending() == walk.subrange(k0 + 1, walk.len() as int));
                            assert(self.records() == Seq::<DirEntry>::empty());
                            assert(self.sectors_left() == sectors_of(walk[k0].size));
                            assert(self.wanted_sector() == walk[k0].sector);
                            assert(self.wanted() == Some(self.volume_offset() + walk[k0].sector * SECTOR_SIZE));
                            assert(forall|j: int| 0 <= j < k0 ==> !wants_read(#[trigger] walk[j]));
                            assert(next_after(*self, walk));
                            assert forall|i: int| 0 <= i < self.stack@.len() implies frame_ok(#[trigger] self.stack@[i])
                                && self.stack@[i].open is Some by {
                                if i < old_stack.len() {
                                    assert(self.stack@[i] == old_stack[i]);
                                }
                            }
                            assert forall|i: int| #![trigger self.stack@[i]] 0 <= i < self.stack@.len() implies (self.stack@[i].sector, self.stack@[i].size)
                                == self.region_at(i) by {
                                if i < old_stack.len() {
                                    assert(self.stack@[i] == old_stack[i]);
                                    if i > 0 {
                                        assert(self.stack@[i - 1] == old_stack[i - 1]);
                                    }
                                } else if i > 0 {
                                    assert(self.stack@[i - 1] == old_stack[i - 1]);
                                }
                            }
                            assert forall|i: int, img: spec_fn(int) -> Seq<u8>|
                                0 <= i < self.stack@.len() && agrees(log, img) implies #[trigger] frame_holds(img, self.stack@[i]) by {
                                if i < old_stack.len() {
                                    assert(self.stack@[i] == old_stack[i]);
                                }
                            }
                            assert forall|img: spec_fn(int) -> Seq<u8>| #[trigger] agrees(self.log@, img) implies region_entries(
                                img,
                                self.sector as int,
                                0,
                                self.raw@,
                            ) by {}
                        }
                        return;
                    }
                }
            } else {
                let ghost f0 = frame;
                let level = frame.done;
                proof {
                    assert(level@ + open_seq(None) + Seq::<DirEntry>::empty() =~= level@);
                    assert(tree_ok(level@));
                    assert forall|img: spec_fn(int) -> Seq<u8>| #[trigger] agrees(log, img) implies decodes(
                        img,
                        f0.sector,
                        f0.size,
                        level@,
                    ) by {
                        assert(frame_holds(img, f0));
                        assert(f0.done@ + open_seq(f0.open) + f0.rest@ =~= level@);
                        assert(region_entries(img, f0.sector as int, sectors_of(f0.size), f0.records@));
                    }
                }
                let ghost old_stack = self.stack@;
                proof {
                    if old_stack.len() > 0 {
                        assert(old_stack =~= old_stack.drop_last().push(old_stack.last()));
                        lemma_rests_push(old_stack.drop_last(), old_stack.last());
                    } else {
                        assert(walk.subrange(k0, walk.len() as int).len() == 0);
                    }
                }
                match self.stack.pop() {
                    None => {
                        self.result = Some(level);
                        proof {
                            assert(next_after(*self, walk));
                        }
                        return;
                    },
                    Some(parent) => {
                        let ghost held = parent;
                        assert(old_stack[old_stack.len() - 1] == parent);
                        assert(self.stack@ =~= old_stack.drop_last());
                        let ghost before = parent.done@ + open_seq(parent.open) + parent.rest@;
                        let mut parent = parent;
                        let mut d = match parent.open {
                            Some(d) => d,
                            None => {
                                return;
                            },
                        };
                        parent.open = None;
                        let ghost d0 = d;
                        d.subdir = Some(level);
                        parent.done.push(d);
                        proof {
                            let now = parent.done@ + open_seq(parent.open) + parent.rest@;
                            assert(now.len() == before.len());
                            assert forall|i: int| 0 <= i < now.len() implies (#[trigger] before[i]).name@ == now[i].name@
                                && strip(before[i]) == strip(now[i]) by {
                                if i == parent.done@.len() - 1 {
                                    assert(before[i] == d0);
                                } else {
                                    assert(before[i] == now[i]);
                                }
                            }
                            lemma_listing_same_names(before, now);
                            assert((f0.sector, f0.size) == (d0.sector, d0.size));
                            assert forall|img: spec_fn(int) -> Seq<u8>| #[trigger] agrees(log, img) implies frame_holds(img, parent) by {
                                assert(frame_holds(img, old_stack[old_stack.len() - 1]));
                                lemma_listing_of_same_strip(held.records@, before, now);
                                assert forall|i: int| 0 <= i < parent.done@.len() implies done_under(img, #[trigger] parent.done@[i]) by {
                                    if i < held.done@.len() {
                                        assert(parent.done@[i] == held.done@[i]);
                                    }
                                }
                            }
                            assert forall|i: int| #![trigger self.stack@[i]] 0 <= i < self.stack@.len() implies (self.stack@[i].sector, self.stack@[i].size)
                                == self.region_at(i) by {
                                assert(self.stack@[i] == old_stack[i]);
                                if i > 0 {
                                    assert(self.stack@[i - 1] == old_stack[i - 1]);
                                }
                            }
                            assert((parent.sector, parent.size) == self.region_at(self.stack@.len() as int)) by {
                                let n = self.stack@.len() as int;
                                if n > 0 {
                                    assert(self.stack@[n - 1] == old_stack[n - 1]);
                                }
                            }
                            assert forall|i: int, img: spec_fn(int) -> Seq<u8>|
                                0 <= i < self.stack@.len() && agrees(log, img) implies #[trigger] frame_holds(img, self.stack@[i]) by {
                                assert(self.stack@[i] == old_stack[i]);
                            }
                            assert forall|i: int| 0 <= i < self.stack@.len() implies frame_ok(#[trigger] self.stack@[i])
                                && self.stack@[i].open is Some by {
                                assert(self.stack@[i] == old_stack[i]);
                            }
                        }
                        frame = parent;
                    },
                }
            }
        }
    }
}

/// Starts decoding the root directory that the header names.
pub fn parse_root(iso_meta: &IsoMeta) -> (r: TreeDecoder)
    requires
        iso_meta.valid(),
    ensures
        r.wf(),
        r.root() == (iso_meta.root_dir_sector, iso_meta.root_dir_size),
        r.volume_offset() == iso_meta.root_offset,
        r.log() == Seq::<(int, Seq<u8>)>::empty(),
        iso_meta.root_dir_size > 0 ==> r.wanted() == Some(
            iso_meta.root_offset + iso_meta.root_dir_sector * SECTOR_SIZE,
        ),
        iso_meta.root_dir_size > 0 ==> r.sectors_left() == (iso_meta.root_dir_size as int
            + SECTOR_SIZE - 1) / SECTOR_SIZE as int,
        iso_meta.root_dir_size > 0 ==> r.wanted_sector() == iso_meta.root_dir_sector,
        iso_meta.root_dir_size > 0 ==> r.pending() == Seq::<DirEntry>::empty() && r.records() == Seq::<
            DirEntry,
        >::empty(),
        iso_meta.root_dir_size == 0 ==> r.decoded() == Some(Seq::<DirEntry>::empty()),
        iso_meta.root_dir_size == 0 ==> r.wanted() is None,
{
    TreeDecoder::new(iso_meta, iso_meta.root_dir_sector, iso_meta.root_dir_size)
}


} // verus!
