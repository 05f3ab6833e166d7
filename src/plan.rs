//! What an extraction does, as a list of jobs: the directories to make and the
//! files to copy, depth first in the order of the listings.

use vstd::prelude::*;
use vstd::string::StringExecFns;
use crate::entry::DirEntry;
use crate::layout::{IsoMeta, SECTOR_SIZE};

verus! {

/// One thing to do at the destination.
#[derive(Debug)]
pub enum Job {
    /// Make sure this directory exists.
    MakeDir { path: String },
    /// Copy `size` bytes of the image from absolute offset `offset` to `path`.
    CopyFile { path: String, offset: u64, size: u32 },
}

/// A job over plain values.
pub enum JobView {
    MakeDir(Seq<char>),
    CopyFile(Seq<char>, u64, u32),
}

impl View for Job {
    type V = JobView;

    open spec fn view(&self) -> JobView {
        match self {
            Job::MakeDir { path } => JobView::MakeDir(path@),
            Job::CopyFile { path, offset, size } => JobView::CopyFile(path@, *offset, *size),
        }
    }
}

/// The name of the optional system update payload at the root.
pub open spec fn update_name() -> Seq<char> {
    seq!['$', 'S', 'y', 's', 't', 'e', 'm', 'U', 'p', 'd', 'a', 't', 'e']
}

/// `name` under the directory `dir`.
pub open spec fn join_path(dir: Seq<char>, name: Seq<char>) -> Seq<char> {
    dir + seq!['/'] + name
}

/// Absolute offset of the data that starts at `sector`.
pub open spec fn data_offset(root_offset: u64, sector: u32) -> int {
    root_offset + sector * SECTOR_SIZE
}

/// The jobs of the entries `s` of the directory `dir`, in order.
pub open spec fn jobs_of(s: Seq<DirEntry>, dir: Seq<char>, root_offset: u64) -> Seq<JobView>
    decreases s,
{
    if s.len() == 0 {
        Seq::empty()
    } else {
        jobs_of(s.drop_last(), dir, root_offset) + entry_jobs(s.last(), dir, root_offset)
    }
}

/// The jobs of one entry of the directory `dir`: a file is copied; a directory
/// is made, then its entries follow.
pub open spec fn entry_jobs(e: DirEntry, dir: Seq<char>, root_offset: u64) -> Seq<JobView>
    decreases e,
{
    let path = join_path(dir, e.name@);
    if e.is_directory() {
        seq![JobView::MakeDir(path)] + match e.subdir {
            Some(c) => jobs_of(c@, path, root_offset),
            None => Seq::empty(),
        }
    } else {
        seq![JobView::CopyFile(path, data_offset(root_offset, e.sector) as u64, e.size)]
    }
}

/// The root entries that are extracted: with `skip_update`, those not named
/// `$SystemUpdate`.
pub open spec fn kept_root(root: Seq<DirEntry>, skip_update: bool) -> Seq<DirEntry>
    decreases root.len(),
{
    if root.len() == 0 {
        root
    } else {
        let kept = kept_root(root.drop_last(), skip_update);
        if skip_update && root.last().name@ == update_name() {
            kept
        } else {
            kept.push(root.last())
        }
    }
}

/// The jobs of an extraction of `root` into `out_dir`.
pub open spec fn plan_of(root: Seq<DirEntry>, out_dir: Seq<char>, root_offset: u64, skip_update: bool) -> Seq<JobView> {
    jobs_of(kept_root(root, skip_update), out_dir, root_offset)
}

/// Every copy's byte range ends within `u64`.
pub open spec fn jobs_in_range(jobs: Seq<JobView>) -> bool {
    forall|i: int|
        0 <= i < jobs.len() ==> (#[trigger] jobs[i] matches JobView::CopyFile(_, off, size) ==> off
            + size <= u64::MAX)
}

/// The views of a list of jobs.
pub open spec fn views(jobs: Seq<Job>) -> Seq<JobView> {
    jobs.map_values(|j: Job| j@)
}

proof fn lemma_jobs_push(s: Seq<DirEntry>, e: DirEntry, dir: Seq<char>, root_offset: u64)
    ensures
        jobs_of(s.push(e), dir, root_offset) == jobs_of(s, dir, root_offset) + entry_jobs(e, dir, root_offset),
{
    assert(s.push(e).drop_last() =~= s);
}

fn join(dir: &String, name: &String) -> (r: String)
    ensures
        r@ == join_path(dir@, name@),
{
    let mut p = dir.clone();
    p.append("/");
    p.append(name.as_str());
    proof {
        reveal_strlit("/");
    }
    p
}

fn offset_of(root_offset: u64, sector: u32) -> (r: u64)
    requires
        root_offset <= 0x1_0000_0000,
    ensures
        r == data_offset(root_offset, sector),
{
    assert(sector * 2048 <= 0x1_0000_0000 * 2048) by (nonlinear_arith)
        requires
            sector <= 0x1_0000_0000,
    ;
    root_offset + sector as u64 * SECTOR_SIZE as u64
}

/// Appends the jobs of the entries of the directory `dir`.
fn plan_level(entries: &Vec<DirEntry>, dir: &String, root_offset: u64, out: &mut Vec<Job>)
    requires
        root_offset <= 0x1_0000_0000,
        jobs_in_range(views(old(out)@)),
    ensures
        views(final(out)@) == views(old(out)@) + jobs_of(entries@, dir@, root_offset),
        jobs_in_range(views(final(out)@)),
    decreases entries@,
{
    let mut i: usize = 0;
    assert(entries@.subrange(0, 0) =~= Seq::<DirEntry>::empty());
    assert(views(out@) =~= views(old(out)@) + Seq::<JobView>::empty());
    while i < entries.len()
        invariant
            i <= entries@.len(),
            root_offset <= 0x1_0000_0000,
            views(out@) == views(old(out)@) + jobs_of(entries@.subrange(0, i as int), dir@, root_offset),
            jobs_in_range(views(out@)),
        decreases entries@.len() - i,
    {
        assert(decreases_to!(entries@ => entries@[i as int]));
        plan_entry(&entries[i], dir, root_offset, out);
        proof {
            lemma_jobs_push(entries@.subrange(0, i as int), entries@[i as int], dir@, root_offset);
            assert(entries@.subrange(0, i as int).push(entries@[i as int]) =~= entries@.subrange(0, i + 1));
        }
        i = i + 1;
    }
    assert(entries@.subrange(0, entries@.len() as int) =~= entries@);
}

/// Appends the jobs of one entry of the directory `dir`.
fn plan_entry(e: &DirEntry, dir: &String, root_offset: u64, out: &mut Vec<Job>)
    requires
        root_offset <= 0x1_0000_0000,
        jobs_in_range(views(old(out)@)),
    ensures
        views(final(out)@) == views(old(out)@) + entry_jobs(*e, dir@, root_offset),
        jobs_in_range(views(final(out)@)),
    decreases *e,
{
    let path = join(dir, &e.name);
    let ghost before = views(out@);
    if e.is_dir() {
        out.push(Job::MakeDir { path: path.clone() });
        assert(views(out@) =~= before.push(JobView::MakeDir(path@)));
        assert(jobs_in_range(views(out@)));
        match &e.subdir {
            Some(c) => {
                plan_level(c, &path, root_offset, out);
                assert(views(out@) =~= before + entry_jobs(*e, dir@, root_offset));
            },
            None => {
                assert(views(out@) =~= before + entry_jobs(*e, dir@, root_offset));
            },
        }
    } else {
        let off = offset_of(root_offset, e.sector);
        out.push(Job::CopyFile { path, offset: off, size: e.size });
        assert(views(out@) =~= before.push(JobView::CopyFile(join_path(dir@, e.name@), off, e.size)));
        assert(views(out@) =~= before + entry_jobs(*e, dir@, root_offset));
        assert(jobs_in_range(views(out@)));
    }
}

/// The jobs that extract the decoded tree `root` into `out_dir`: each
/// directory is made before its entries, each file is copied from its
/// sector, depth first in the order of the listings. With `skip_update`, a
/// root entry named `$SystemUpdate` is left out, with all it holds.
pub fn plan_extraction(meta: &IsoMeta, root: &Vec<DirEntry>, out_dir: &String, skip_update: bool) -> (r: Vec<Job>)
    requires
        meta.valid(),
    ensures
        views(r@) == plan_of(root@, out_dir@, meta.root_offset, skip_update),
        jobs_in_range(views(r@)),
{
    let update = String::from_str("$SystemUpdate");
    proof {
        reveal_strlit("$SystemUpdate");
        assert(update@ =~= update_name());
    }
    let mut out: Vec<Job> = Vec::new();
    let mut i: usize = 0;
    assert(root@.subrange(0, 0) =~= Seq::<DirEntry>::empty());
    assert(views(out@) =~= Seq::<JobView>::empty());
    while i < root.len()
        invariant
            i <= root@.len(),
            meta.valid(),
            update@ == update_name(),
            views(out@) == jobs_of(kept_root(root@.subrange(0, i as int), skip_update), out_dir@, meta.root_offset),
            jobs_in_range(views(out@)),
        decreases root@.len() - i,
    {
        let ghost prefix = root@.subrange(0, i as int);
        let ghost next = root@.subrange(0, i + 1);
        assert(next.drop_last() =~= prefix);
        assert(next.last() == root@[i as int]);
        if skip_update && root[i].name == update {
        } else {
            plan_entry(&root[i], out_dir, meta.root_offset, &mut out);
            proof {
                lemma_jobs_push(kept_root(prefix, skip_update), root@[i as int], out_dir@, meta.root_offset);
            }
        }
        i = i + 1;
    }
    assert(root@.subrange(0, root@.len() as int) =~= root@);
    out
}


proof fn lemma_kept_root_without(a: Seq<DirEntry>, u: DirEntry, b: Seq<DirEntry>)
    requires
        u.name@ == update_name(),
    ensures
        kept_root(a.push(u) + b, true) == kept_root(a + b, true),
    decreases b.len(),
{
    if b.len() == 0 {
        assert(a.push(u) + b =~= a.push(u));
        assert(a + b =~= a);
        assert(a.push(u).drop_last() =~= a);
    } else {
        lemma_kept_root_without(a, u, b.drop_last());
        assert((a.push(u) + b).drop_last() =~= a.push(u) + b.drop_last());
        assert((a + b).drop_last() =~= a + b.drop_last());
    }
}

/// With the update skipped, a root entry named `$SystemUpdate` adds nothing
/// to an extraction: the plan is the same as without that entry, so none of
/// what it holds is written or counted.
pub proof fn lemma_skipped_update_adds_nothing(
    a: Seq<DirEntry>,
    u: DirEntry,
    b: Seq<DirEntry>,
    out_dir: Seq<char>,
    root_offset: u64,
)
    requires
        u.name@ == update_name(),
    ensures
        plan_of(a.push(u) + b, out_dir, root_offset, true) == plan_of(a + b, out_dir, root_offset, true),
{
    lemma_kept_root_without(a, u, b);
}


/// The files among the entries `s`, counted through the children of their
/// directories.
pub open spec fn files_in(s: Seq<DirEntry>) -> nat
    decreases s,
{
    if s.len() == 0 {
        0
    } else {
        files_in(s.drop_last()) + entry_files(s.last())
    }
}

/// The files that one entry stands for: itself, or those its directory holds.
pub open spec fn entry_files(e: DirEntry) -> nat
    decreases e,
{
    if e.is_directory() {
        match e.subdir {
            Some(c) => files_in(c@),
            None => 0,
        }
    } else {
        1
    }
}

proof fn lemma_kept_root_all(root: Seq<DirEntry>)
    ensures
        kept_root(root, false) == root,
    decreases root.len(),
{
    if root.len() > 0 {
        lemma_kept_root_all(root.drop_last());
        assert(root.drop_last().push(root.last()) =~= root);
    }
}

/// Without the skip, every root entry is extracted: the plan is that of the
/// whole tree. With it, only root entries named exactly `$SystemUpdate` are
/// left out; the entries below the root are planned in full either way.
pub proof fn lemma_plan_without_skip(root: Seq<DirEntry>, out_dir: Seq<char>, root_offset: u64)
    ensures
        plan_of(root, out_dir, root_offset, false) == jobs_of(root, out_dir, root_offset),
{
    lemma_kept_root_all(root);
}

} // verus!
