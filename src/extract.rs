//! Carrying out the jobs of an extraction against a destination. The
//! destination is the caller's: the machine says what to ask of it or do to
//! it, and is told what came back. It decides when a directory must be
//! created, when a file is already complete and is left alone, how a file is
//! copied chunk by chunk, and whether the written file checks out.

use vstd::prelude::*;
use crate::error::XisoError;
use crate::entry::DirEntry;
use crate::plan::{
    data_offset, entry_files, entry_jobs, files_in, jobs_in_range, jobs_of, join_path, kept_root,
    lemma_plan_without_skip, plan_of, views, Job, JobView,
};

verus! {

/// The largest number of bytes copied in one chunk.
pub const CHUNK_SIZE: u32 = 4096;

/// Where the current job stands.
#[derive(Clone, Copy, Debug, PartialEq, Eq, Structural)]
pub enum Phase {
    /// Asked whether the directory exists.
    CheckingDir,
    /// Asked to create the directory.
    CreatingDir,
    /// Asked for the size of the file already at the destination.
    CheckingSize,
    /// Asked to open the destination file for writing.
    Opening,
    /// `copied` bytes are written and the next chunk is asked for.
    Copying { copied: u32 },
    /// Asked to finish writing the file.
    Finalizing,
    /// Asked for the size of the written file.
    Verifying,
    /// All jobs are done.
    Finished,
    /// A written file did not check out; nothing more is done.
    Failed,
}

/// What the destination answered.
#[derive(Clone, Copy, Debug, PartialEq, Eq, Structural)]
pub enum Event {
    /// Whether the directory asked about exists.
    DirExists(bool),
    /// The size of the file asked about, `None` where there is none.
    Size(Option<u64>),
    /// The action asked for is done.
    Completed,
}

/// What the caller does next.
#[derive(Debug)]
pub enum Action {
    /// Tell whether this directory exists (answer `DirExists`).
    QueryDir { path: String },
    /// Create this directory (answer `Completed`).
    CreateDir { path: String },
    /// Tell the size of the file at this path (answer `Size`).
    QuerySize { path: String },
    /// Open this file for writing, truncating it; `replacing` where a file of
    /// another size is there (answer `Completed`).
    OpenWrite { path: String, replacing: bool },
    /// Copy `len` bytes of the image from absolute offset `offset` to the open
    /// file (answer `Completed`).
    Copy { offset: u64, len: u32 },
    /// Finish writing this file (answer `Completed`).
    Finalize { path: String },
    /// All jobs are done: `files` files are in place, `resumed` of them were
    /// found complete and left alone.
    Finished { files: u64, resumed: u64 },
}

/// An action over plain values.
pub enum ActionView {
    QueryDir(Seq<char>),
    CreateDir(Seq<char>),
    QuerySize(Seq<char>),
    OpenWrite(Seq<char>, bool),
    Copy(u64, u32),
    Finalize(Seq<char>),
    Finished(u64, u64),
}

impl View for Action {
    type V = ActionView;

    open spec fn view(&self) -> ActionView {
        match self {
            Action::QueryDir { path } => ActionView::QueryDir(path@),
            Action::CreateDir { path } => ActionView::CreateDir(path@),
            Action::QuerySize { path } => ActionView::QuerySize(path@),
            Action::OpenWrite { path, replacing } => ActionView::OpenWrite(path@, *replacing),
            Action::Copy { offset, len } => ActionView::Copy(*offset, *len),
            Action::Finalize { path } => ActionView::Finalize(path@),
            Action::Finished { files, resumed } => ActionView::Finished(*files, *resumed),
        }
    }
}

/// The state of an extraction over plain values: the jobs, the index of the
/// current one, where it stands, and the files in place so far.
pub struct ExtractionView {
    pub jobs: Seq<JobView>,
    pub index: int,
    pub phase: Phase,
    pub files: int,
    pub resumed: int,
}

pub open spec fn job_path(j: JobView) -> Seq<char> {
    match j {
        JobView::MakeDir(p) => p,
        JobView::CopyFile(p, _, _) => p,
    }
}

pub open spec fn job_offset(j: JobView) -> u64 {
    match j {
        JobView::MakeDir(_) => 0,
        JobView::CopyFile(_, off, _) => off,
    }
}

pub open spec fn job_size(j: JobView) -> u32 {
    match j {
        JobView::MakeDir(_) => 0,
        JobView::CopyFile(_, _, size) => size,
    }
}

/// The length of the chunk after `copied` bytes of `size`.
pub open spec fn chunk_len(size: u32, copied: u32) -> u32 {
    if size - copied < CHUNK_SIZE {
        (size - copied) as u32
    } else {
        CHUNK_SIZE
    }
}

/// Takes up the job at `s.index`, or ends when none is left.
pub open spec fn begin_job(s: ExtractionView) -> (ExtractionView, ActionView) {
    if s.index >= s.jobs.len() {
        (ExtractionView { phase: Phase::Finished, ..s }, ActionView::Finished(s.files as u64, s.resumed as u64))
    } else {
        match s.jobs[s.index] {
            JobView::MakeDir(p) => (ExtractionView { phase: Phase::CheckingDir, ..s }, ActionView::QueryDir(p)),
            JobView::CopyFile(p, _, _) => (
                ExtractionView { phase: Phase::CheckingSize, ..s },
                ActionView::QuerySize(p),
            ),
        }
    }
}

/// Goes on to the job after the current one.
pub open spec fn next_job(s: ExtractionView) -> (ExtractionView, ActionView) {
    begin_job(ExtractionView { index: s.index + 1, ..s })
}

/// The event that answers the action of a phase.
pub open spec fn expects(phase: Phase, ev: Event) -> bool {
    match phase {
        Phase::CheckingDir => ev is DirExists,
        Phase::CheckingSize | Phase::Verifying => ev is Size,
        Phase::Finished | Phase::Failed => false,
        _ => ev is Completed,
    }
}

/// One step of an extraction: the state and the action after `ev` answered
/// the last action; `Err` with the file's path where the written file does
/// not have the size of its record.
pub open spec fn transition(s: ExtractionView, ev: Event) -> Result<(ExtractionView, ActionView), Seq<char>> {
    let job = s.jobs[s.index];
    let path = job_path(job);
    let size = job_size(job);
    let off = job_offset(job);
    match s.phase {
        Phase::CheckingDir => if ev == Event::DirExists(true) {
            Ok(next_job(s))
        } else {
            Ok((ExtractionView { phase: Phase::CreatingDir, ..s }, ActionView::CreateDir(path)))
        },
        Phase::CreatingDir => Ok(next_job(s)),
        Phase::CheckingSize => if ev == Event::Size(Some(size as u64)) {
            Ok(next_job(ExtractionView { files: s.files + 1, resumed: s.resumed + 1, ..s }))
        } else {
            Ok((
                ExtractionView { phase: Phase::Opening, ..s },
                ActionView::OpenWrite(path, ev != Event::Size(None)),
            ))
        },
        Phase::Opening => if size == 0 {
            Ok((ExtractionView { phase: Phase::Finalizing, ..s }, ActionView::Finalize(path)))
        } else {
            Ok((
                ExtractionView { phase: Phase::Copying { copied: 0 }, ..s },
                ActionView::Copy(off, chunk_len(size, 0)),
            ))
        },
        Phase::Copying { copied } => {
            let now = (copied + chunk_len(size, copied)) as u32;
            if now == size {
                Ok((ExtractionView { phase: Phase::Finalizing, ..s }, ActionView::Finalize(path)))
            } else {
                Ok((
                    ExtractionView { phase: Phase::Copying { copied: now }, ..s },
                    ActionView::Copy((off + now) as u64, chunk_len(size, now)),
                ))
            }
        },
        Phase::Finalizing => Ok((ExtractionView { phase: Phase::Verifying, ..s }, ActionView::QuerySize(path))),
        Phase::Verifying => if ev == Event::Size(Some(size as u64)) {
            Ok(next_job(ExtractionView { files: s.files + 1, ..s }))
        } else {
            Err(path)
        },
        Phase::Finished | Phase::Failed => Ok((s, ActionView::Finished(s.files as u64, s.resumed as u64))),
    }
}

/// The number of files that `jobs` copy.
pub open spec fn copies(jobs: Seq<JobView>) -> nat
    decreases jobs.len(),
{
    if jobs.len() == 0 {
        0
    } else {
        copies(jobs.drop_last()) + if jobs.last() is CopyFile {
            1nat
        } else {
            0nat
        }
    }
}

proof fn lemma_copies_step(jobs: Seq<JobView>, i: int)
    requires
        0 <= i < jobs.len(),
    ensures
        copies(jobs.subrange(0, i + 1)) == copies(jobs.subrange(0, i)) + if jobs[i] is CopyFile {
            1nat
        } else {
            0nat
        },
{
    assert(jobs.subrange(0, i + 1).drop_last() =~= jobs.subrange(0, i));
}

/// A state the machine can be in.
pub open spec fn state_ok(s: ExtractionView) -> bool {
    &&& jobs_in_range(s.jobs)
    &&& 0 <= s.resumed <= s.files <= s.index <= s.jobs.len()
    &&& s.files == copies(s.jobs.subrange(0, s.index))
    &&& (s.phase == Phase::Finished <==> s.index == s.jobs.len())
    &&& s.phase == Phase::Failed ==> s.index < s.jobs.len()
    &&& (s.phase is CheckingDir || s.phase is CreatingDir) ==> s.jobs[s.index] is MakeDir
    &&& (s.phase is CheckingSize || s.phase is Opening || s.phase is Copying || s.phase is Finalizing
        || s.phase is Verifying) ==> s.jobs[s.index] is CopyFile
    &&& s.phase matches Phase::Copying { copied } ==> copied < job_size(s.jobs[s.index])
}

/// An extraction in progress.
pub struct Extraction {
    jobs: Vec<Job>,
    index: usize,
    phase: Phase,
    files: u64,
    resumed: u64,
}

impl View for Extraction {
    type V = ExtractionView;

    closed spec fn view(&self) -> ExtractionView {
        ExtractionView {
            jobs: views(self.jobs@),
            index: self.index as int,
            phase: self.phase,
            files: self.files as int,
            resumed: self.resumed as int,
        }
    }
}

fn chunk(size: u32, copied: u32) -> (r: u32)
    requires
        copied <= size,
    ensures
        r == chunk_len(size, copied),
{
    if size - copied < CHUNK_SIZE {
        size - copied
    } else {
        CHUNK_SIZE
    }
}

impl Extraction {
    /// Starts carrying out `jobs`; the first action comes with it.
    pub fn start(jobs: Vec<Job>) -> (r: (Extraction, Action))
        requires
            jobs_in_range(views(jobs@)),
        ensures
            state_ok(r.0@),
            (r.0@, r.1@) == begin_job(
                ExtractionView { jobs: views(jobs@), index: 0, phase: Phase::Finished, files: 0, resumed: 0 },
            ),
    {
        let mut ex = Extraction { jobs, index: 0, phase: Phase::Finished, files: 0, resumed: 0 };
        assert(views(ex.jobs@).subrange(0, 0) =~= Seq::<JobView>::empty());
        let a = ex.begin();
        (ex, a)
    }

    /// Takes up the job at `index`.
    fn begin(&mut self) -> (r: Action)
        requires
            jobs_in_range(views(old(self).jobs@)),
            old(self).resumed <= old(self).files <= old(self).index <= old(self).jobs@.len(),
            old(self).files == copies(views(old(self).jobs@).subrange(0, old(self).index as int)),
        ensures
            (final(self)@, r@) == begin_job(old(self)@),
            state_ok(final(self)@),
    {
        if self.index >= self.jobs.len() {
            self.phase = Phase::Finished;
            return Action::Finished { files: self.files, resumed: self.resumed };
        }
        match &self.jobs[self.index] {
            Job::MakeDir { path } => {
                self.phase = Phase::CheckingDir;
                Action::QueryDir { path: path.clone() }
            },
            Job::CopyFile { path, offset, size } => {
                self.phase = Phase::CheckingSize;
                Action::QuerySize { path: path.clone() }
            },
        }
    }

    /// Takes the answer to the last action and gives the next action. A
    /// written file whose size differs from its record's ends the extraction
    /// with an error naming the file.
    pub fn step(&mut self, ev: Event) -> (r: Result<Action, XisoError>)
        requires
            state_ok(old(self)@),
            expects(old(self)@.phase, ev),
        ensures
            match transition(old(self)@, ev) {
                Ok((s, a)) => r matches Ok(act) && final(self)@ == s && act@ == a && state_ok(s),
                Err(p) => r matches Err(XisoError::VerificationFailed { path }) && path@ == p && final(self)@
                    == (ExtractionView { phase: Phase::Failed, ..old(self)@ }) && state_ok(final(self)@)
                    && forall|e: Event| !expects(final(self)@.phase, e),
            },
    {
        let ghost s0 = self@;
        assert(s0.phase != Phase::Finished);
        assert(s0.phase != Phase::Failed);
        let n = self.jobs.len();
        assert(self.index < n);
        let (path, offset, size) = match &self.jobs[self.index] {
            Job::MakeDir { path } => (path.clone(), 0u64, 0u32),
            Job::CopyFile { path, offset, size } => (path.clone(), *offset, *size),
        };
        assert(path@ == job_path(s0.jobs[s0.index]));
        assert(offset == job_offset(s0.jobs[s0.index]));
        assert(size == job_size(s0.jobs[s0.index]));
        proof {
            lemma_copies_step(s0.jobs, s0.index);
        }
        match self.phase {
            Phase::CheckingDir => {
                if ev == Event::DirExists(true) {
                    self.index = self.index + 1;
                    Ok(self.begin())
                } else {
                    self.phase = Phase::CreatingDir;
                    Ok(Action::CreateDir { path })
                }
            },
            Phase::CreatingDir => {
                self.index = self.index + 1;
                Ok(self.begin())
            },
            Phase::CheckingSize => {
                if ev == Event::Size(Some(size as u64)) {
                    self.files = self.files + 1;
                    self.resumed = self.resumed + 1;
                    self.index = self.index + 1;
                    Ok(self.begin())
                } else {
                    self.phase = Phase::Opening;
                    Ok(Action::OpenWrite { path, replacing: ev != Event::Size(None) })
                }
            },
            Phase::Opening => {
                if size == 0 {
                    self.phase = Phase::Finalizing;
                    Ok(Action::Finalize { path })
                } else {
                    self.phase = Phase::Copying { copied: 0 };
                    Ok(Action::Copy { offset, len: chunk(size, 0) })
                }
            },
            Phase::Copying { copied } => {
                let now = copied + chunk(size, copied);
                if now == size {
                    self.phase = Phase::Finalizing;
                    Ok(Action::Finalize { path })
                } else {
                    self.phase = Phase::Copying { copied: now };
                    Ok(Action::Copy { offset: offset + now as u64, len: chunk(size, now) })
                }
            },
            Phase::Finalizing => {
                self.phase = Phase::Verifying;
                Ok(Action::QuerySize { path })
            },
            Phase::Verifying => {
                if ev == Event::Size(Some(size as u64)) {
                    self.files = self.files + 1;
                    self.index = self.index + 1;
                    Ok(self.begin())
                } else {
                    self.phase = Phase::Failed;
                    Err(XisoError::VerificationFailed { path })
                }
            },
            Phase::Finished | Phase::Failed => Ok(Action::Finished { files: self.files, resumed: self.resumed }),
        }
    }
}


/// A file that the destination already holds with its record's size is left
/// alone: no write is opened and nothing is copied; it counts as in place, and
/// the next job is taken up.
pub proof fn lemma_complete_file_left_alone(s: ExtractionView)
    requires
        state_ok(s),
        s.phase == Phase::CheckingSize,
    ensures
        transition(s, Event::Size(Some(job_size(s.jobs[s.index]) as u64))) matches Ok((t, a)) && {
            &&& t.index == s.index + 1
            &&& t.files == s.files + 1
            &&& t.resumed == s.resumed + 1
            &&& (a is QueryDir || a is QuerySize || a is Finished)
        },
{
}

/// Once all jobs are done, the files reported in place are the files that the
/// jobs copy: each copied and checked, or found complete.
pub proof fn lemma_finished_counts_copies(s: ExtractionView)
    requires
        state_ok(s),
        s.phase == Phase::Finished,
    ensures
        s.files == copies(s.jobs),
        begin_job(s).1 == ActionView::Finished(copies(s.jobs) as u64, s.resumed as u64),
{
    assert(s.jobs.subrange(0, s.index) =~= s.jobs);
}

/// A written file whose size is not its record's ends the extraction with an
/// error naming the file; a failed extraction takes no further answer, so no
/// later job is begun.
pub proof fn lemma_size_mismatch_fails(s: ExtractionView, found: Option<u64>)
    requires
        state_ok(s),
        s.phase == Phase::Verifying,
        found != Some(job_size(s.jobs[s.index]) as u64),
    ensures
        transition(s, Event::Size(found)) == Err::<(ExtractionView, ActionView), Seq<char>>(job_path(s.jobs[s.index])),
        forall|e: Event| !expects(Phase::Failed, e),
{
}

/// The chunks of a file follow one another from its first byte and end at
/// its last: each is at most `CHUNK_SIZE` long, starts where the bytes
/// copied so far end, and the file is finalized once all its bytes are
/// copied.
pub proof fn lemma_chunks_cover_file(s: ExtractionView)
    requires
        state_ok(s),
        s.phase is Copying || s.phase is Opening,
    ensures
        transition(s, Event::Completed) matches Ok((t, a)) && ({
            let size = job_size(s.jobs[s.index]);
            let off = job_offset(s.jobs[s.index]);
            let copied: int = match s.phase {
                Phase::Copying { copied } => copied + chunk_len(size, copied),
                _ => 0,
            };
            &&& copied == size ==> a == ActionView::Finalize(job_path(s.jobs[s.index]))
            &&& copied < size ==> t.phase == (Phase::Copying { copied: copied as u32 }) && a
                == ActionView::Copy((off + copied) as u64, chunk_len(size, copied as u32))
            &&& copied < size ==> 0 < chunk_len(size, copied as u32) <= CHUNK_SIZE
            &&& copied <= size
        }),
{
}


proof fn lemma_copies_append(a: Seq<JobView>, b: Seq<JobView>)
    ensures
        copies(a + b) == copies(a) + copies(b),
    decreases b.len(),
{
    if b.len() == 0 {
        assert(a + b =~= a);
    } else {
        lemma_copies_append(a, b.drop_last());
        assert((a + b).drop_last() =~= a + b.drop_last());
    }
}

proof fn lemma_copies_jobs(s: Seq<DirEntry>, dir: Seq<char>, root_offset: u64)
    ensures
        copies(jobs_of(s, dir, root_offset)) == files_in(s),
    decreases s,
{
    if s.len() > 0 {
        assert(decreases_to!(s => s[s.len() - 1]));
        lemma_copies_jobs(s.drop_last(), dir, root_offset);
        lemma_copies_entry(s[s.len() - 1], dir, root_offset);
        lemma_copies_append(jobs_of(s.drop_last(), dir, root_offset), entry_jobs(s.last(), dir, root_offset));
    }
}

proof fn lemma_copies_entry(e: DirEntry, dir: Seq<char>, root_offset: u64)
    ensures
        copies(entry_jobs(e, dir, root_offset)) == entry_files(e),
    decreases e,
{
    let path = join_path(dir, e.name@);
    if e.is_directory() {
        let head = seq![JobView::MakeDir(path)];
        assert(head.drop_last() =~= Seq::<JobView>::empty());
        assert(copies(Seq::<JobView>::empty()) == 0);
        assert(copies(head) == 0);
        match e.subdir {
            Some(c) => {
                lemma_copies_jobs(c@, path, root_offset);
                lemma_copies_append(head, jobs_of(c@, path, root_offset));
            },
            None => {
                assert(head + Seq::<JobView>::empty() =~= head);
                assert(entry_jobs(e, dir, root_offset) == head);
            },
        }
    } else {
        let one = seq![JobView::CopyFile(path, data_offset(root_offset, e.sector) as u64, e.size)];
        assert(one.drop_last() =~= Seq::<JobView>::empty());
        assert(copies(Seq::<JobView>::empty()) == 0);
        assert(copies(one) == 1);
        assert(entry_jobs(e, dir, root_offset) == one);
    }
}

/// The files that an extraction of `root` reports in place are the files of
/// the tree, counted through all directories; with the update skipped, the
/// files of the root entries other than `$SystemUpdate`.
pub proof fn lemma_plan_counts_files(root: Seq<DirEntry>, out_dir: Seq<char>, root_offset: u64, skip_update: bool)
    ensures
        copies(plan_of(root, out_dir, root_offset, skip_update)) == files_in(kept_root(root, skip_update)),
        !skip_update ==> copies(plan_of(root, out_dir, root_offset, skip_update)) == files_in(root),
{
    lemma_copies_jobs(kept_root(root, skip_update), out_dir, root_offset);
    if !skip_update {
        lemma_plan_without_skip(root, out_dir, root_offset);
        lemma_copies_jobs(root, out_dir, root_offset);
    }
}

} // verus!
