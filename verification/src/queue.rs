//! The download queue: jobs, their files, and the state of every segment.
//!
//! A download can be stopped and taken up again at any article. Three tables hold what is
//! needed for it. A job, a file or a segment that was added later has a higher id, and no id
//! is given twice. At most one job downloads at a time.
use vstd::prelude::*;

use crate::nzb;
use crate::nzb::{Nzb, NzbFile, NzbSegment};
use crate::order;
use crate::order::{retain, sort, Choice, Precedence};
use crate::text::{chars_of, same_text};
use crate::types;
use crate::types::copy_text;

verus! {

/// The life of a job.
#[derive(Debug, Clone, Copy, PartialEq, Eq, Hash, Structural)]
pub enum JobState {
    /// Its NZB file is being fetched.
    Fetching,
    /// It waits for the download.
    Queued,
    /// It is being downloaded.
    Downloading,
    /// All its files are downloaded and assembled.
    Complete,
    /// The download failed for good.
    Failed,
}

impl JobState {
    /// The word for the state.
    pub open spec fn word(self) -> Seq<char> {
        match self {
            JobState::Fetching => "fetching"@,
            JobState::Queued => "queued"@,
            JobState::Downloading => "downloading"@,
            JobState::Complete => "complete"@,
            JobState::Failed => "failed"@,
        }
    }

    /// The state that a word means; any other word means queued.
    pub open spec fn meant(s: Seq<char>) -> JobState {
        if s == "fetching"@ {
            JobState::Fetching
        } else if s == "downloading"@ {
            JobState::Downloading
        } else if s == "complete"@ {
            JobState::Complete
        } else if s == "failed"@ {
            JobState::Failed
        } else {
            JobState::Queued
        }
    }

    /// The word for the state.
    pub fn as_str(&self) -> (r: &'static str)
        ensures
            r@ == self.word(),
    {
        match self {
            JobState::Fetching => "fetching",
            JobState::Queued => "queued",
            JobState::Downloading => "downloading",
            JobState::Complete => "complete",
            JobState::Failed => "failed",
        }
    }

    /// The state that a word means. A word that means none, such as the `paused` of older
    /// databases, means queued.
    pub fn from_str_lossy(s: &str) -> (r: Self)
        ensures
            r == JobState::meant(s@),
    {
        if same_text(s, "fetching") {
            JobState::Fetching
        } else if same_text(s, "downloading") {
            JobState::Downloading
        } else if same_text(s, "complete") {
            JobState::Complete
        } else if same_text(s, "failed") {
            JobState::Failed
        } else {
            JobState::Queued
        }
    }
}

/// The word for a job state is read back as that state.
pub proof fn job_state_words_round_trip(s: JobState)
    ensures
        JobState::meant(s.word()) == s,
{
    reveal_strlit("fetching");
    reveal_strlit("queued");
    reveal_strlit("downloading");
    reveal_strlit("complete");
    reveal_strlit("failed");
    assert("fetching"@.len() == 8 && "queued"@.len() == 6 && "downloading"@.len() == 11
        && "complete"@.len() == 8 && "failed"@.len() == 6);
    assert("fetching"@[0] == 'f' && "complete"@[0] == 'c' && "queued"@[0] == 'q' && "failed"@[0]
        == 'f');
}

/// What became of a segment.
#[derive(Debug, Clone, Copy, PartialEq, Eq, Hash, Structural)]
pub enum SegmentState {
    /// Not yet fetched.
    Pending,
    /// Decoded, with the right checksum.
    Done,
    /// Missing on all servers.
    Missing,
    /// Decoded, with a wrong checksum.
    CrcMismatch,
    /// Failed for another reason.
    Failed,
}

impl SegmentState {
    /// The word for the state.
    pub open spec fn word(self) -> Seq<char> {
        match self {
            SegmentState::Pending => "pending"@,
            SegmentState::Done => "done"@,
            SegmentState::Missing => "missing"@,
            SegmentState::CrcMismatch => "crc_mismatch"@,
            SegmentState::Failed => "failed"@,
        }
    }

    /// The state that a word means; any other word means pending.
    pub open spec fn meant(s: Seq<char>) -> SegmentState {
        if s == "done"@ {
            SegmentState::Done
        } else if s == "missing"@ {
            SegmentState::Missing
        } else if s == "crc_mismatch"@ {
            SegmentState::CrcMismatch
        } else if s == "failed"@ {
            SegmentState::Failed
        } else {
            SegmentState::Pending
        }
    }

    /// The word for the state.
    pub fn as_str(&self) -> (r: &'static str)
        ensures
            r@ == self.word(),
    {
        match self {
            SegmentState::Pending => "pending",
            SegmentState::Done => "done",
            SegmentState::Missing => "missing",
            SegmentState::CrcMismatch => "crc_mismatch",
            SegmentState::Failed => "failed",
        }
    }

    /// The state that a word means; any other word means pending.
    pub fn from_str_lossy(s: &str) -> (r: Self)
        ensures
            r == SegmentState::meant(s@),
    {
        if same_text(s, "done") {
            SegmentState::Done
        } else if same_text(s, "missing") {
            SegmentState::Missing
        } else if same_text(s, "crc_mismatch") {
            SegmentState::CrcMismatch
        } else if same_text(s, "failed") {
            SegmentState::Failed
        } else {
            SegmentState::Pending
        }
    }
}

/// The word for a segment state is read back as that state.
pub proof fn segment_state_words_round_trip(s: SegmentState)
    ensures
        SegmentState::meant(s.word()) == s,
{
    reveal_strlit("pending");
    reveal_strlit("done");
    reveal_strlit("missing");
    reveal_strlit("crc_mismatch");
    reveal_strlit("failed");
    assert("pending"@.len() == 7 && "done"@.len() == 4 && "missing"@.len() == 7
        && "crc_mismatch"@.len() == 12 && "failed"@.len() == 6);
    assert("pending"@[0] == 'p' && "missing"@[0] == 'm');
}

/// A job of the queue.
#[derive(Debug)]
pub struct QueueJob {
    pub id: i64,
    pub name: String,
    pub output_dir: String,
    pub state: JobState,
    /// Lower comes first.
    pub priority: i64,
    /// Number of files.
    pub file_count: u32,
    /// Number of files all of whose segments are done, missing or corrupt.
    pub files_done: u32,
    /// Number of segments.
    pub total_segments: u32,
    /// Number of segments that are done, missing or corrupt. One that failed is not counted: it
    /// can be fetched again.
    pub segments_done: u32,
    /// Size of all segments.
    pub total_bytes: u64,
    /// Size of the segments that are done.
    pub downloaded_bytes: u64,
    /// Why the job failed.
    pub error: Option<String>,
    /// Password of the archives in the job.
    pub archive_password: Option<String>,
}

/// What a [`QueueJob`] says.
pub struct JobView {
    pub id: int,
    pub name: Seq<char>,
    pub output_dir: Seq<char>,
    pub state: JobState,
    pub priority: i64,
    pub file_count: u32,
    pub files_done: u32,
    pub total_segments: u32,
    pub segments_done: u32,
    pub total_bytes: u64,
    pub downloaded_bytes: u64,
    pub error: Option<Seq<char>>,
    pub archive_password: Option<Seq<char>>,
}

impl View for QueueJob {
    type V = JobView;

    open spec fn view(&self) -> JobView {
        JobView {
            id: self.id as int,
            name: self.name@,
            output_dir: self.output_dir@,
            state: self.state,
            priority: self.priority,
            file_count: self.file_count,
            files_done: self.files_done,
            total_segments: self.total_segments,
            segments_done: self.segments_done,
            total_bytes: self.total_bytes,
            downloaded_bytes: self.downloaded_bytes,
            error: types::text_of(self.error),
            archive_password: types::text_of(self.archive_password),
        }
    }
}

impl Clone for QueueJob {
    fn clone(&self) -> (r: Self)
        ensures
            r@ == self@,
    {
        QueueJob {
            id: self.id,
            name: self.name.clone(),
            output_dir: self.output_dir.clone(),
            state: self.state,
            priority: self.priority,
            file_count: self.file_count,
            files_done: self.files_done,
            total_segments: self.total_segments,
            segments_done: self.segments_done,
            total_bytes: self.total_bytes,
            downloaded_bytes: self.downloaded_bytes,
            error: copy_text(&self.error),
            archive_password: copy_text(&self.archive_password),
        }
    }
}

/// A file of a job.
#[derive(Debug)]
pub struct QueueFile {
    pub id: i64,
    pub job_id: i64,
    pub filename: String,
    /// The real name, where the articles give one.
    pub yenc_name: Option<String>,
    pub subject: String,
    pub poster: String,
    pub date: u64,
    pub segment_count: u32,
    /// Position within the job, from 0.
    pub file_index: u32,
}

/// What a [`QueueFile`] says.
pub struct FileView {
    pub id: int,
    pub job_id: int,
    pub filename: Seq<char>,
    pub yenc_name: Option<Seq<char>>,
    pub subject: Seq<char>,
    pub poster: Seq<char>,
    pub date: u64,
    pub segment_count: u32,
    pub file_index: u32,
}

impl View for QueueFile {
    type V = FileView;

    open spec fn view(&self) -> FileView {
        FileView {
            id: self.id as int,
            job_id: self.job_id as int,
            filename: self.filename@,
            yenc_name: types::text_of(self.yenc_name),
            subject: self.subject@,
            poster: self.poster@,
            date: self.date,
            segment_count: self.segment_count,
            file_index: self.file_index,
        }
    }
}

impl Clone for QueueFile {
    fn clone(&self) -> (r: Self)
        ensures
            r@ == self@,
    {
        QueueFile {
            id: self.id,
            job_id: self.job_id,
            filename: self.filename.clone(),
            yenc_name: copy_text(&self.yenc_name),
            subject: self.subject.clone(),
            poster: self.poster.clone(),
            date: self.date,
            segment_count: self.segment_count,
            file_index: self.file_index,
        }
    }
}

/// A segment of a file.
#[derive(Debug)]
pub struct QueueSegment {
    pub id: i64,
    pub file_id: i64,
    /// Position within the file, from 1.
    pub number: u32,
    pub message_id: String,
    pub bytes: u64,
    /// Whether the NZB file had no article for it.
    pub missing: bool,
    pub state: SegmentState,
}

/// What a [`QueueSegment`] says.
pub struct SegmentView {
    pub id: int,
    pub file_id: int,
    pub number: u32,
    pub message_id: Seq<char>,
    pub bytes: u64,
    pub missing: bool,
    pub state: SegmentState,
}

impl View for QueueSegment {
    type V = SegmentView;

    open spec fn view(&self) -> SegmentView {
        SegmentView {
            id: self.id as int,
            file_id: self.file_id as int,
            number: self.number,
            message_id: self.message_id@,
            bytes: self.bytes,
            missing: self.missing,
            state: self.state,
        }
    }
}

impl Clone for QueueSegment {
    fn clone(&self) -> (r: Self)
        ensures
            r@ == self@,
    {
        QueueSegment {
            id: self.id,
            file_id: self.file_id,
            number: self.number,
            message_id: self.message_id.clone(),
            bytes: self.bytes,
            missing: self.missing,
            state: self.state,
        }
    }
}

/// How far one file of a job is.
#[derive(Debug)]
pub struct JobFileStats {
    pub filename: String,
    pub segment_count: u32,
    pub segments_done: u32,
    pub segments_missing: u32,
    pub total_bytes: u64,
    pub downloaded_bytes: u64,
}

/// What a [`JobFileStats`] says.
pub struct StatsView {
    pub filename: Seq<char>,
    pub segment_count: u32,
    pub segments_done: u32,
    pub segments_missing: u32,
    pub total_bytes: u64,
    pub downloaded_bytes: u64,
}

impl View for JobFileStats {
    type V = StatsView;

    open spec fn view(&self) -> StatsView {
        StatsView {
            filename: self.filename@,
            segment_count: self.segment_count,
            segments_done: self.segments_done,
            segments_missing: self.segments_missing,
            total_bytes: self.total_bytes,
            downloaded_bytes: self.downloaded_bytes,
        }
    }
}

/// Why a change of the queue, or a question to it, was refused.
#[derive(Debug, Clone, Copy, PartialEq, Eq, Structural)]
pub enum QueueError {
    /// There is no such job.
    NoSuchJob,
    /// There is no such file.
    NoSuchFile,
    /// Another job is downloading.
    SlotTaken,
    /// No ids are left.
    Full,
    /// A sum of sizes does not fit into a 64-bit integer.
    Overflow,
    /// The rows break a rule of the queue.
    Corrupt,
}

/// What a queue holds.
#[verifier::ext_equal]
pub struct QueueView {
    pub jobs: Seq<JobView>,
    pub files: Seq<FileView>,
    pub segments: Seq<SegmentView>,
    /// The ids that the next job, file and segment will get.
    pub next_job: int,
    pub next_file: int,
    pub next_segment: int,
}

/// Whether the ids ascend, from 1 on, below `next`.
pub open spec fn ids_ascend(ids: Seq<int>, next: int) -> bool {
    &&& 1 <= next
    &&& forall|i: int| 0 <= i < ids.len() ==> 1 <= #[trigger] ids[i] < next
    &&& forall|i: int, j: int| 0 <= i < j < ids.len() ==> #[trigger] ids[i] < #[trigger] ids[j]
}

/// The ids of a list of jobs.
pub open spec fn job_ids(jobs: Seq<JobView>) -> Seq<int> {
    jobs.map_values(|j: JobView| j.id)
}

/// The ids of a list of files.
pub open spec fn file_ids(files: Seq<FileView>) -> Seq<int> {
    files.map_values(|f: FileView| f.id)
}

/// The ids of a list of segments.
pub open spec fn segment_ids(segments: Seq<SegmentView>) -> Seq<int> {
    segments.map_values(|s: SegmentView| s.id)
}

/// Whether no two of the jobs download.
pub open spec fn one_download(jobs: Seq<JobView>) -> bool {
    forall|i: int, j: int|
        0 <= i < j < jobs.len() ==> (#[trigger] jobs[i]).state != JobState::Downloading || (
        #[trigger] jobs[j]).state != JobState::Downloading
}

/// Whether each file belongs to one of the jobs.
pub open spec fn files_owned(files: Seq<FileView>, jobs: Seq<JobView>) -> bool {
    forall|i: int| 0 <= i < files.len() ==> job_ids(jobs).contains((#[trigger] files[i]).job_id)
}

/// Whether each segment belongs to one of the files.
pub open spec fn segments_owned(segments: Seq<SegmentView>, files: Seq<FileView>) -> bool {
    forall|i: int|
        0 <= i < segments.len() ==> file_ids(files).contains((#[trigger] segments[i]).file_id)
}

impl QueueView {
    /// What holds of every queue: ids ascend and are not given twice, every file has its job
    /// and every segment its file, and at most one job downloads.
    pub open spec fn is_valid(self) -> bool {
        &&& ids_ascend(job_ids(self.jobs), self.next_job)
        &&& ids_ascend(file_ids(self.files), self.next_file)
        &&& ids_ascend(segment_ids(self.segments), self.next_segment)
        &&& files_owned(self.files, self.jobs)
        &&& segments_owned(self.segments, self.files)
        &&& one_download(self.jobs)
    }

    /// A queue that never held anything.
    pub open spec fn fresh() -> QueueView {
        QueueView {
            jobs: Seq::empty(),
            files: Seq::empty(),
            segments: Seq::empty(),
            next_job: 1,
            next_file: 1,
            next_segment: 1,
        }
    }

    /// Whether there is a job `id`.
    pub open spec fn has_job(self, id: int) -> bool {
        job_ids(self.jobs).contains(id)
    }

    /// Whether there is a file `id`.
    pub open spec fn has_file(self, id: int) -> bool {
        file_ids(self.files).contains(id)
    }

    /// Whether some job downloads.
    pub open spec fn is_downloading(self) -> bool {
        exists|i: int|
            0 <= i < self.jobs.len() && (#[trigger] self.jobs[i]).state == JobState::Downloading
    }

    /// Whether a job other than `id` downloads.
    pub open spec fn taken_by_other(self, id: int) -> bool {
        exists|i: int|
            0 <= i < self.jobs.len() && (#[trigger] self.jobs[i]).state == JobState::Downloading
                && self.jobs[i].id != id
    }

    /// The queue with `change` made to the job `id`.
    pub open spec fn with_job(self, id: int, change: spec_fn(JobView) -> JobView) -> QueueView {
        QueueView {
            jobs: self.jobs.map_values(
                |j: JobView|
                    if j.id == id {
                        change(j)
                    } else {
                        j
                    },
            ),
            ..self
        }
    }

    /// The queue with `change` made to the files that `which` picks.
    pub open spec fn with_files(
        self,
        which: spec_fn(FileView) -> bool,
        change: spec_fn(FileView) -> FileView,
    ) -> QueueView {
        QueueView {
            files: self.files.map_values(
                |f: FileView|
                    if which(f) {
                        change(f)
                    } else {
                        f
                    },
            ),
            ..self
        }
    }

    /// The queue with the state of the segments that `which` picks set to `state`.
    pub open spec fn with_segments(
        self,
        which: spec_fn(SegmentView) -> bool,
        state: SegmentState,
    ) -> QueueView {
        QueueView {
            segments: self.segments.map_values(
                |s: SegmentView|
                    if which(s) {
                        SegmentView { state, ..s }
                    } else {
                        s
                    },
            ),
            ..self
        }
    }
}

/// The queue.
#[derive(Debug)]
pub struct QueueManager {
    jobs: Vec<QueueJob>,
    files: Vec<QueueFile>,
    segments: Vec<QueueSegment>,
    next_job: i64,
    next_file: i64,
    next_segment: i64,
}

impl View for QueueManager {
    type V = QueueView;

    closed spec fn view(&self) -> QueueView {
        QueueView {
            jobs: order::views(self.jobs@),
            files: order::views(self.files@),
            segments: order::views(self.segments@),
            next_job: self.next_job as int,
            next_file: self.next_file as int,
            next_segment: self.next_segment as int,
        }
    }
}

proof fn lemma_with_job_at(q: QueueView, i: int, change: spec_fn(JobView) -> JobView)
    requires
        q.is_valid(),
        0 <= i < q.jobs.len(),
    ensures
        q.with_job(q.jobs[i].id, change) == (QueueView {
            jobs: q.jobs.update(i, change(q.jobs[i])),
            ..q
        }),
{
    let r = q.with_job(q.jobs[i].id, change);
    assert forall|k: int| 0 <= k < q.jobs.len() implies r.jobs[k] == q.jobs.update(
        i,
        change(q.jobs[i]),
    )[k] by {
        assert(job_ids(q.jobs)[k] == q.jobs[k].id && job_ids(q.jobs)[i] == q.jobs[i].id);
    }
    assert(r.jobs =~= q.jobs.update(i, change(q.jobs[i])));
}

proof fn lemma_with_job_absent(q: QueueView, id: int, change: spec_fn(JobView) -> JobView)
    requires
        !q.has_job(id),
    ensures
        q.with_job(id, change) == q,
{
    let r = q.with_job(id, change);
    assert forall|k: int| 0 <= k < q.jobs.len() implies r.jobs[k] == q.jobs[k] by {
        assert(job_ids(q.jobs)[k] == q.jobs[k].id);
    }
    assert(r.jobs =~= q.jobs);
}

/// A change that keeps ids and states keeps the queue valid.
proof fn lemma_change_keeps_valid(q: QueueView, i: int, job: JobView)
    requires
        q.is_valid(),
        0 <= i < q.jobs.len(),
        job.id == q.jobs[i].id,
        job.state == JobState::Downloading ==> !q.taken_by_other(job.id),
    ensures
        (QueueView { jobs: q.jobs.update(i, job), ..q }).is_valid(),
{
    let jobs = q.jobs.update(i, job);
    assert(job_ids(jobs) =~= job_ids(q.jobs));
    assert forall|a: int, b: int| 0 <= a < b < jobs.len() implies (#[trigger] jobs[a]).state
        != JobState::Downloading || (#[trigger] jobs[b]).state != JobState::Downloading by {
        assert(job_ids(q.jobs)[a] == q.jobs[a].id && job_ids(q.jobs)[b] == q.jobs[b].id);
        if a == i || b == i {
            let other = if a == i { b } else { a };
            assert(job_ids(q.jobs)[i] == q.jobs[i].id);
            if jobs[i].state == JobState::Downloading {
                assert(q.jobs[other].id != job.id);
                assert(q.jobs[other].state != JobState::Downloading);
            }
        }
    }
}

impl Clone for QueueManager {
    fn clone(&self) -> (r: Self)
        ensures
            r@ == self@,
    {
        let r = QueueManager {
            jobs: self.jobs.clone(),
            files: self.files.clone(),
            segments: self.segments.clone(),
            next_job: self.next_job,
            next_file: self.next_file,
            next_segment: self.next_segment,
        };
        assert(r@ =~= self@);
        r
    }
}

impl QueueManager {
    /// An empty queue.
    pub fn open_in_memory() -> (r: Self)
        ensures
            r@ == QueueView::fresh(),
            r@.is_valid(),
    {
        let r = QueueManager {
            jobs: Vec::new(),
            files: Vec::new(),
            segments: Vec::new(),
            next_job: 1,
            next_file: 1,
            next_segment: 1,
        };
        assert(r@ =~= QueueView::fresh());
        r
    }

    fn job_position(&self, id: i64) -> (r: Option<usize>)
        ensures
            match r {
                Some(i) => i < self.jobs.len() && self@.jobs[i as int].id == id && self@.has_job(
                    id as int,
                ),
                None => !self@.has_job(id as int),
            },
    {
        let mut i: usize = 0;
        while i < self.jobs.len()
            invariant
                i <= self.jobs.len(),
                forall|k: int| 0 <= k < i ==> #[trigger] job_ids(self@.jobs)[k] != id,
            decreases self.jobs.len() - i,
        {
            assert(job_ids(self@.jobs)[i as int] == self.jobs@[i as int].id);
            if self.jobs[i].id == id {
                assert(job_ids(self@.jobs).contains(id as int));
                return Some(i);
            }
            i += 1;
        }
        None
    }

    fn file_position(&self, id: i64) -> (r: Option<usize>)
        ensures
            match r {
                Some(i) => i < self.files.len() && self@.files[i as int].id == id && self@.has_file(
                    id as int,
                ),
                None => !self@.has_file(id as int),
            },
    {
        let mut i: usize = 0;
        while i < self.files.len()
            invariant
                i <= self.files.len(),
                forall|k: int| 0 <= k < i ==> #[trigger] file_ids(self@.files)[k] != id,
            decreases self.files.len() - i,
        {
            assert(file_ids(self@.files)[i as int] == self.files@[i as int].id);
            if self.files[i].id == id {
                assert(file_ids(self@.files).contains(id as int));
                return Some(i);
            }
            i += 1;
        }
        None
    }

    /// Whether a job other than `id` downloads.
    fn is_taken_by_other(&self, id: i64) -> (r: bool)
        ensures
            r == self@.taken_by_other(id as int),
    {
        let mut i: usize = 0;
        while i < self.jobs.len()
            invariant
                i <= self.jobs.len(),
                forall|k: int|
                    0 <= k < i ==> (#[trigger] self@.jobs[k]).state != JobState::Downloading
                        || self@.jobs[k].id == id,
            decreases self.jobs.len() - i,
        {
            assert(self@.jobs[i as int] == self.jobs@[i as int]@);
            if self.jobs[i].state == JobState::Downloading && self.jobs[i].id != id {
                return true;
            }
            i += 1;
        }
        false
    }

    /// Sets the state of a job. Refused while another job downloads, if the state is
    /// downloading.
    pub fn set_job_state(&mut self, job_id: i64, state: JobState) -> (r: Result<(), QueueError>)
        requires
            old(self)@.is_valid(),
        ensures
            final(self)@.is_valid(),
            match r {
                Ok(_) => final(self)@ == old(self)@.with_job(
                    job_id as int,
                    |j: JobView| JobView { state, ..j },
                ),
                Err(e) => e == QueueError::SlotTaken && final(self)@ == old(self)@,
            },
            r is Err == (state == JobState::Downloading && old(self)@.has_job(job_id as int)
                && old(self)@.taken_by_other(job_id as int)),
    {
        let ghost change = |j: JobView| JobView { state, ..j };
        match self.job_position(job_id) {
            Some(i) => {
                if state == JobState::Downloading && self.is_taken_by_other(job_id) {
                    return Err(QueueError::SlotTaken);
                }
                proof {
                    lemma_with_job_at(self@, i as int, change);
                    lemma_change_keeps_valid(self@, i as int, change(self@.jobs[i as int]));
                }
                self.jobs[i].state = state;
                assert(self@ =~= old(self)@.with_job(job_id as int, change));
            },
            None => {
                proof {
                    lemma_with_job_absent(self@, job_id as int, change);
                }
            },
        }
        Ok(())
    }

    /// Sets or clears why a job failed.
    pub fn set_job_error(&mut self, job_id: i64, error: Option<&str>)
        requires
            old(self)@.is_valid(),
        ensures
            final(self)@.is_valid(),
            final(self)@ == old(self)@.with_job(
                job_id as int,
                |j: JobView|
                    JobView {
                        error: match error {
                            Some(s) => Some(s@),
                            None => None,
                        },
                        ..j
                    },
            ),
    {
        let ghost change = |j: JobView|
            JobView {
                error: match error {
                    Some(s) => Some(s@),
                    None => None,
                },
                ..j
            };
        match self.job_position(job_id) {
            Some(i) => {
                proof {
                    lemma_with_job_at(self@, i as int, change);
                    lemma_same_state_keeps_valid(self@, i as int, change(self@.jobs[i as int]));
                }
                self.jobs[i].error = match error {
                    Some(s) => Some(s.to_owned()),
                    None => None,
                };
                assert(self@ =~= old(self)@.with_job(job_id as int, change));
            },
            None => {
                proof {
                    lemma_with_job_absent(self@, job_id as int, change);
                }
            },
        }
    }

    /// Sets or clears the password of the archives of a job.
    pub fn set_job_archive_password(&mut self, job_id: i64, password: Option<&str>)
        requires
            old(self)@.is_valid(),
        ensures
            final(self)@.is_valid(),
            final(self)@ == old(self)@.with_job(
                job_id as int,
                |j: JobView|
                    JobView {
                        archive_password: match password {
                            Some(s) => Some(s@),
                            None => None,
                        },
                        ..j
                    },
            ),
    {
        let ghost change = |j: JobView|
            JobView {
                archive_password: match password {
                    Some(s) => Some(s@),
                    None => None,
                },
                ..j
            };
        match self.job_position(job_id) {
            Some(i) => {
                proof {
                    lemma_with_job_at(self@, i as int, change);
                    lemma_same_state_keeps_valid(self@, i as int, change(self@.jobs[i as int]));
                }
                self.jobs[i].archive_password = match password {
                    Some(s) => Some(s.to_owned()),
                    None => None,
                };
                assert(self@ =~= old(self)@.with_job(job_id as int, change));
            },
            None => {
                proof {
                    lemma_with_job_absent(self@, job_id as int, change);
                }
            },
        }
    }

    /// Sets the priority of a job.
    pub fn set_job_priority(&mut self, job_id: i64, priority: i64)
        requires
            old(self)@.is_valid(),
        ensures
            final(self)@.is_valid(),
            final(self)@ == old(self)@.with_job(
                job_id as int,
                |j: JobView| JobView { priority, ..j },
            ),
    {
        let ghost change = |j: JobView| JobView { priority, ..j };
        match self.job_position(job_id) {
            Some(i) => {
                proof {
                    lemma_with_job_at(self@, i as int, change);
                    lemma_same_state_keeps_valid(self@, i as int, change(self@.jobs[i as int]));
                }
                self.jobs[i].priority = priority;
                assert(self@ =~= old(self)@.with_job(job_id as int, change));
            },
            None => {
                proof {
                    lemma_with_job_absent(self@, job_id as int, change);
                }
            },
        }
    }
}

proof fn lemma_same_state_keeps_valid(q: QueueView, i: int, job: JobView)
    requires
        q.is_valid(),
        0 <= i < q.jobs.len(),
        job.id == q.jobs[i].id,
        job.state == q.jobs[i].state,
    ensures
        (QueueView { jobs: q.jobs.update(i, job), ..q }).is_valid(),
{
    if job.state == JobState::Downloading {
        if q.taken_by_other(job.id) {
            let k = choose|k: int|
                0 <= k < q.jobs.len() && (#[trigger] q.jobs[k]).state == JobState::Downloading
                    && q.jobs[k].id != job.id;
            assert(q.jobs[i].state == JobState::Downloading);
        }
    }
    lemma_change_keeps_valid(q, i, job);
}

impl QueueView {
    /// Whether the job `id` waits for the download.
    pub open spec fn is_queued(self, id: int) -> bool {
        exists|i: int|
            0 <= i < self.jobs.len() && (#[trigger] self.jobs[i]).id == id && self.jobs[i].state
                == JobState::Queued
    }

    /// The queue with the download slot released by the job `id`, if it holds it.
    pub open spec fn released(self, id: int, state: JobState) -> QueueView {
        self.with_job(
            id,
            |j: JobView|
                if j.state == JobState::Downloading {
                    JobView { state, ..j }
                } else {
                    j
                },
        )
    }

    /// Whether the job `id` is one of those that `gone` picks.
    pub open spec fn job_gone(self, id: int, gone: spec_fn(JobView) -> bool) -> bool {
        exists|i: int|
            0 <= i < self.jobs.len() && (#[trigger] self.jobs[i]).id == id && gone(self.jobs[i])
    }

    /// Whether the file `id` belongs to a job that `gone` picks.
    pub open spec fn file_gone(self, id: int, gone: spec_fn(JobView) -> bool) -> bool {
        exists|i: int|
            0 <= i < self.files.len() && (#[trigger] self.files[i]).id == id && self.job_gone(
                self.files[i].job_id,
                gone,
            )
    }

    /// The queue without the jobs that `gone` picks, their files and their segments.
    pub open spec fn without(self, gone: spec_fn(JobView) -> bool) -> QueueView {
        QueueView {
            jobs: self.jobs.filter(|j: JobView| !gone(j)),
            files: self.files.filter(|f: FileView| !self.job_gone(f.job_id, gone)),
            segments: self.segments.filter(|s: SegmentView| !self.file_gone(s.file_id, gone)),
            ..self
        }
    }

    /// The queue with no job downloading: one that did waits again.
    pub open spec fn requeued(self) -> QueueView {
        QueueView {
            jobs: self.jobs.map_values(
                |j: JobView|
                    if j.state == JobState::Downloading {
                        JobView { state: JobState::Queued, ..j }
                    } else {
                        j
                    },
            ),
            ..self
        }
    }

    /// The number of jobs that a stop in the middle of the work interrupted, given the ids of
    /// those that are stored under the word `paused`.
    pub open spec fn interruptions(self, paused: Seq<i64>) -> nat {
        self.jobs.filter(|j: JobView| was_interrupted(j, paused)).len()
    }

    /// Whether the segment belongs to a file of the job `id`.
    pub open spec fn is_of_job(self, s: SegmentView, id: int) -> bool {
        exists|i: int|
            0 <= i < self.files.len() && (#[trigger] self.files[i]).id == s.file_id
                && self.files[i].job_id == id
    }
}

/// Whether a stop in the middle of the work interrupted a job: it downloads, or is stored under
/// the word `paused` of older databases, which is read as queued.
pub open spec fn was_interrupted(j: JobView, paused: Seq<i64>) -> bool {
    j.state == JobState::Downloading || (j.state == JobState::Queued && listed(paused, j.id))
}

/// Which jobs to remove.
enum Removal {
    Job(i64),
    Fetching,
}

impl Removal {
    spec fn picks(self, j: JobView) -> bool {
        match self {
            Removal::Job(id) => j.id == id,
            Removal::Fetching => j.state == JobState::Fetching,
        }
    }

    fn does_pick(&self, j: &QueueJob) -> (r: bool)
        ensures
            r == self.picks(j@),
    {
        match self {
            Removal::Job(id) => j.id == *id,
            Removal::Fetching => j.state == JobState::Fetching,
        }
    }
}

impl Choice<QueueJob> for Removal {
    closed spec fn keeps(&self, x: JobView) -> bool {
        !self.picks(x)
    }

    fn does_keep(&self, x: &QueueJob) -> (r: bool) {
        !self.does_pick(x)
    }
}

/// Whether an id is in a list.
pub open spec fn listed(ids: Seq<i64>, id: int) -> bool {
    exists|i: int| 0 <= i < ids.len() && #[trigger] ids[i] == id
}

/// Whether an id is in a list.
pub fn is_listed(ids: &Vec<i64>, id: i64) -> (r: bool)
    ensures
        r == listed(ids@, id as int),
{
    let mut i: usize = 0;
    while i < ids.len()
        invariant
            i <= ids.len(),
            forall|k: int| 0 <= k < i ==> #[trigger] ids@[k] != id,
        decreases ids.len() - i,
    {
        if ids[i] == id {
            return true;
        }
        i += 1;
    }
    false
}

struct JobNotIn {
    ids: Vec<i64>,
}

impl Choice<QueueFile> for JobNotIn {
    closed spec fn keeps(&self, x: FileView) -> bool {
        !listed(self.ids@, x.job_id)
    }

    fn does_keep(&self, x: &QueueFile) -> (r: bool) {
        !is_listed(&self.ids, x.job_id)
    }
}

struct FileNotIn {
    ids: Vec<i64>,
}

impl Choice<QueueSegment> for FileNotIn {
    closed spec fn keeps(&self, x: SegmentView) -> bool {
        !listed(self.ids@, x.file_id)
    }

    fn does_keep(&self, x: &QueueSegment) -> (r: bool) {
        !is_listed(&self.ids, x.file_id)
    }
}

proof fn lemma_filter_ascends(ids: Seq<int>, kept_ids: Seq<int>, p: Seq<int>, next: int)
    requires
        ids_ascend(ids, next),
        p.len() == kept_ids.len(),
        forall|i: int| 0 <= i < p.len() ==> 0 <= #[trigger] p[i] < ids.len() && ids[p[i]] == kept_ids[i],
        forall|i: int, j: int| 0 <= i < j < p.len() ==> #[trigger] p[i] < #[trigger] p[j],
    ensures
        ids_ascend(kept_ids, next),
{
    assert forall|i: int| 0 <= i < kept_ids.len() implies 1 <= #[trigger] kept_ids[i] < next by {
        assert(ids[p[i]] == kept_ids[i]);
    }
    assert forall|i: int, j: int| 0 <= i < j < kept_ids.len() implies #[trigger] kept_ids[i]
        < #[trigger] kept_ids[j] by {
        assert(p[i] < p[j]);
        assert(ids[p[i]] == kept_ids[i] && ids[p[j]] == kept_ids[j]);
    }
}

/// Removing jobs with what belongs to them keeps the queue valid.
proof fn lemma_without_keeps_valid(q: QueueView, gone: spec_fn(JobView) -> bool)
    requires
        q.is_valid(),
    ensures
        q.without(gone).is_valid(),
{
    let r = q.without(gone);
    let keep_job = |j: JobView| !gone(j);
    let keep_file = |f: FileView| !q.job_gone(f.job_id, gone);
    let keep_segment = |s: SegmentView| !q.file_gone(s.file_id, gone);
    let pj = order::filter_positions(q.jobs, keep_job);
    let pf = order::filter_positions(q.files, keep_file);
    let ps = order::filter_positions(q.segments, keep_segment);
    assert forall|i: int| 0 <= i < pj.len() implies 0 <= #[trigger] pj[i] < job_ids(q.jobs).len()
        && job_ids(q.jobs)[pj[i]] == job_ids(r.jobs)[i] by {
        assert(q.jobs[pj[i]] == r.jobs[i]);
    }
    assert forall|i: int| 0 <= i < pf.len() implies 0 <= #[trigger] pf[i] < file_ids(q.files).len()
        && file_ids(q.files)[pf[i]] == file_ids(r.files)[i] by {
        assert(q.files[pf[i]] == r.files[i]);
    }
    assert forall|i: int| 0 <= i < ps.len() implies 0 <= #[trigger] ps[i] < segment_ids(
        q.segments,
    ).len() && segment_ids(q.segments)[ps[i]] == segment_ids(r.segments)[i] by {
        assert(q.segments[ps[i]] == r.segments[i]);
    }
    lemma_filter_ascends(job_ids(q.jobs), job_ids(r.jobs), pj, q.next_job);
    lemma_filter_ascends(file_ids(q.files), file_ids(r.files), pf, q.next_file);
    lemma_filter_ascends(segment_ids(q.segments), segment_ids(r.segments), ps, q.next_segment);
    assert forall|i: int| 0 <= i < r.files.len() implies job_ids(r.jobs).contains(
        (#[trigger] r.files[i]).job_id,
    ) by {
        assert(q.files[pf[i]] == r.files[i]);
        let id = r.files[i].job_id;
        assert(job_ids(q.jobs).contains(id));
        let k = choose|k: int| 0 <= k < job_ids(q.jobs).len() && job_ids(q.jobs)[k] == id;
        assert(q.jobs[k].id == id);
        assert(keep_file(r.files[i]));
        assert(keep_job(q.jobs[k]));
        q.jobs.lemma_filter_contains(keep_job, k);
        let m = choose|m: int| 0 <= m < r.jobs.len() && r.jobs[m] == q.jobs[k];
        assert(job_ids(r.jobs)[m] == id);
    }
    assert forall|i: int| 0 <= i < r.segments.len() implies file_ids(r.files).contains(
        (#[trigger] r.segments[i]).file_id,
    ) by {
        assert(q.segments[ps[i]] == r.segments[i]);
        let id = r.segments[i].file_id;
        assert(file_ids(q.files).contains(id));
        let k = choose|k: int| 0 <= k < file_ids(q.files).len() && file_ids(q.files)[k] == id;
        assert(q.files[k].id == id);
        assert(keep_segment(r.segments[i]));
        assert(keep_file(q.files[k]));
        q.files.lemma_filter_contains(keep_file, k);
        let m = choose|m: int| 0 <= m < r.files.len() && r.files[m] == q.files[k];
        assert(file_ids(r.files)[m] == id);
    }
    assert forall|a: int, b: int| 0 <= a < b < r.jobs.len() implies (#[trigger] r.jobs[a]).state
        != JobState::Downloading || (#[trigger] r.jobs[b]).state != JobState::Downloading by {
        assert(pj[a] < pj[b]);
        assert(q.jobs[pj[a]] == r.jobs[a] && q.jobs[pj[b]] == r.jobs[b]);
    }
}

impl QueueManager {
    /// Gives the download slot to the job `job_id`, if it waits and no job downloads.
    pub fn claim_download_slot(&mut self, job_id: i64) -> (r: bool)
        requires
            old(self)@.is_valid(),
        ensures
            final(self)@.is_valid(),
            r == (old(self)@.is_queued(job_id as int) && !old(self)@.is_downloading()),
            final(self)@ == if r {
                old(self)@.with_job(
                    job_id as int,
                    |j: JobView| JobView { state: JobState::Downloading, ..j },
                )
            } else {
                old(self)@
            },
    {
        let ghost change = |j: JobView| JobView { state: JobState::Downloading, ..j };
        match self.job_position(job_id) {
            Some(i) => {
                assert(self@.jobs[i as int] == self.jobs@[i as int]@);
                proof {
                    lemma_queued_at(self@, i as int);
                }
                if self.jobs[i].state != JobState::Queued || self.is_taken_by_other(job_id) {
                    return false;
                }
                proof {
                    if self@.is_downloading() {
                        let k = choose|k: int|
                            0 <= k < self@.jobs.len() && (#[trigger] self@.jobs[k]).state
                                == JobState::Downloading;
                        assert(job_ids(self@.jobs)[k] == self@.jobs[k].id);
                        assert(job_ids(self@.jobs)[i as int] == self@.jobs[i as int].id);
                        assert(self@.jobs[k].id != job_id);
                    }
                    lemma_with_job_at(self@, i as int, change);
                    lemma_change_keeps_valid(self@, i as int, change(self@.jobs[i as int]));
                }
                self.jobs[i].state = JobState::Downloading;
                assert(self@ =~= old(self)@.with_job(job_id as int, change));
                true
            },
            None => {
                proof {
                    if self@.is_queued(job_id as int) {
                        let k = choose|k: int|
                            0 <= k < self@.jobs.len() && (#[trigger] self@.jobs[k]).id == job_id
                                && self@.jobs[k].state == JobState::Queued;
                        assert(job_ids(self@.jobs)[k] == job_id);
                    }
                }
                false
            },
        }
    }

    /// Takes the download slot from the job `job_id`, if it holds it, and sets its state.
    pub fn release_download_slot(&mut self, job_id: i64, new_state: JobState)
        requires
            old(self)@.is_valid(),
        ensures
            final(self)@.is_valid(),
            final(self)@ == old(self)@.released(job_id as int, new_state),
    {
        let ghost change = |j: JobView|
            if j.state == JobState::Downloading {
                JobView { state: new_state, ..j }
            } else {
                j
            };
        match self.job_position(job_id) {
            Some(i) => {
                assert(self@.jobs[i as int] == self.jobs@[i as int]@);
                proof {
                    lemma_with_job_at(self@, i as int, change);
                }
                if self.jobs[i].state == JobState::Downloading {
                    proof {
                        if self@.taken_by_other(job_id as int) {
                            let k = choose|k: int|
                                0 <= k < self@.jobs.len() && (#[trigger] self@.jobs[k]).state
                                    == JobState::Downloading && self@.jobs[k].id != job_id;
                            assert(self@.jobs[i as int].state == JobState::Downloading);
                        }
                        lemma_change_keeps_valid(self@, i as int, change(self@.jobs[i as int]));
                    }
                    self.jobs[i].state = new_state;
                }
                assert(self@ =~= old(self)@.released(job_id as int, new_state));
            },
            None => {
                proof {
                    lemma_with_job_absent(self@, job_id as int, change);
                }
            },
        }
    }

    /// The job that downloads.
    pub fn current_downloading_job(&self) -> (r: Option<i64>)
        ensures
            match r {
                Some(id) => exists|i: int|
                    0 <= i < self@.jobs.len() && (#[trigger] self@.jobs[i]).id == id
                        && self@.jobs[i].state == JobState::Downloading,
                None => !self@.is_downloading(),
            },
    {
        let mut i: usize = 0;
        while i < self.jobs.len()
            invariant
                i <= self.jobs.len(),
                forall|k: int|
                    0 <= k < i ==> (#[trigger] self@.jobs[k]).state != JobState::Downloading,
            decreases self.jobs.len() - i,
        {
            assert(self@.jobs[i as int] == self.jobs@[i as int]@);
            if self.jobs[i].state == JobState::Downloading {
                return Some(self.jobs[i].id);
            }
            i += 1;
        }
        None
    }

    fn remove(&mut self, removal: &Removal)
        requires
            old(self)@.is_valid(),
        ensures
            final(self)@.is_valid(),
            final(self)@ == old(self)@.without(|j: JobView| removal.picks(j)),
    {
        let ghost q = self@;
        let ghost gone = |j: JobView| removal.picks(j);
        let mut jobs_gone: Vec<i64> = Vec::new();
        let mut i: usize = 0;
        while i < self.jobs.len()
            invariant
                i <= self.jobs.len(),
                self@ == q,
                gone == (|j: JobView| removal.picks(j)),
                forall|id: int| #[trigger]
                    listed(jobs_gone@, id) == exists|k: int|
                        0 <= k < i && (#[trigger] q.jobs[k]).id == id && gone(q.jobs[k]),
            decreases self.jobs.len() - i,
        {
            assert(q.jobs[i as int] == self.jobs@[i as int]@);
            if removal.does_pick(&self.jobs[i]) {
                let ghost was = jobs_gone@;
                let ghost new_id = self.jobs@[i as int].id;
                jobs_gone.push(self.jobs[i].id);
                assert forall|id: int| #[trigger] listed(jobs_gone@, id) == (listed(was, id) || id
                    == new_id) by {
                    lemma_listed_push(was, new_id, id);
                }
            }
            i += 1;
        }
        let mut files_gone: Vec<i64> = Vec::new();
        i = 0;
        while i < self.files.len()
            invariant
                i <= self.files.len(),
                self@ == q,
                forall|id: int| #[trigger] listed(jobs_gone@, id) == q.job_gone(id, gone),
                forall|id: int| #[trigger]
                    listed(files_gone@, id) == exists|k: int|
                        0 <= k < i && (#[trigger] q.files[k]).id == id && q.job_gone(
                            q.files[k].job_id,
                            gone,
                        ),
            decreases self.files.len() - i,
        {
            assert(q.files[i as int] == self.files@[i as int]@);
            if is_listed(&jobs_gone, self.files[i].job_id) {
                let ghost was = files_gone@;
                let ghost new_id = self.files@[i as int].id;
                files_gone.push(self.files[i].id);
                assert forall|id: int| #[trigger] listed(files_gone@, id) == (listed(was, id) || id
                    == new_id) by {
                    lemma_listed_push(was, new_id, id);
                }
            }
            i += 1;
        }
        let by_job = JobNotIn { ids: jobs_gone };
        let by_file = FileNotIn { ids: files_gone };
        retain(&mut self.jobs, removal);
        retain(&mut self.files, &by_job);
        retain(&mut self.segments, &by_file);
        proof {
            assert(order::kept::<QueueJob, Removal>(*removal) =~= (|j: JobView| !gone(j)));
            assert(order::kept::<QueueFile, JobNotIn>(by_job) =~= (|f: FileView|
                !q.job_gone(f.job_id, gone)));
            assert(order::kept::<QueueSegment, FileNotIn>(by_file) =~= (|s: SegmentView|
                !q.file_gone(s.file_id, gone)));
            assert(self@ =~= q.without(gone));
            lemma_without_keeps_valid(q, gone);
        }
    }

    /// Removes a job, its files and its segments.
    pub fn delete_job(&mut self, job_id: i64)
        requires
            old(self)@.is_valid(),
        ensures
            final(self)@.is_valid(),
            final(self)@ == old(self)@.without(|j: JobView| j.id == job_id),
    {
        let removal = Removal::Job(job_id);
        self.remove(&removal);
        assert((|j: JobView| removal.picks(j)) =~= (|j: JobView| j.id == job_id));
    }

    /// Clears up after a stop in the middle of the work: jobs whose NZB file was being fetched
    /// are removed, and a job that was downloading waits again. No job holds the download slot
    /// afterwards. `paused` are the ids of the jobs that are stored under the word `paused` of
    /// older databases; they wait again too. The number of jobs that wait again is returned.
    pub fn recover_interrupted(&mut self, paused: &Vec<i64>) -> (r: u64)
        requires
            old(self)@.is_valid(),
        ensures
            final(self)@.is_valid(),
            final(self)@ == old(self)@.without(
                |j: JobView| j.state == JobState::Fetching,
            ).requeued(),
            r == old(self)@.interruptions(paused@),
            !final(self)@.is_downloading(),
    {
        let removal = Removal::Fetching;
        let ghost q = self@;
        let ghost gone = |j: JobView| j.state == JobState::Fetching;
        self.remove(&removal);
        assert((|j: JobView| removal.picks(j)) =~= gone);
        let ghost w = self@;
        let mut count: u64 = 0;
        let mut i: usize = 0;
        let ghost busy = |j: JobView| was_interrupted(j, paused@);
        assert(w.jobs.take(0) == Seq::<JobView>::empty());
        proof {
            reveal(Seq::filter);
        }
        while i < self.jobs.len()
            invariant
                i <= self.jobs.len(),
                self.jobs.len() == w.jobs.len(),
                w.is_valid(),
                busy == (|j: JobView| was_interrupted(j, paused@)),
                self@ == (QueueView { jobs: self@.jobs, ..w }),
                forall|k: int| 0 <= k < i ==> #[trigger] self@.jobs[k] == w.requeued().jobs[k],
                forall|k: int|
                    i <= k < self@.jobs.len() ==> #[trigger] self@.jobs[k] == w.jobs[k],
                count == w.jobs.take(i as int).filter(busy).len(),
                count <= i,
            decreases self.jobs.len() - i,
        {
            assert(self@.jobs[i as int] == self.jobs@[i as int]@);
            proof {
                assert(w.jobs.take(i + 1) == w.jobs.take(i as int).push(w.jobs[i as int]));
                order::filter_of_push(w.jobs.take(i as int), w.jobs[i as int], busy);
            }
            let ghost before = self@.jobs;
            if self.jobs[i].state == JobState::Queued && is_listed(paused, self.jobs[i].id) {
                count += 1;
            } else if self.jobs[i].state == JobState::Downloading {
                self.jobs[i].state = JobState::Queued;
                count += 1;
                assert(self@.jobs =~= before.update(
                    i as int,
                    JobView { state: JobState::Queued, ..before[i as int] },
                ));
            }
            i += 1;
        }
        proof {
            assert(w.jobs.take(i as int) == w.jobs);
            assert(self@.jobs =~= w.requeued().jobs);
            assert(self@ =~= w.requeued());
            lemma_requeued_valid(w);
            lemma_two_filters(q.jobs, paused@);
            assert((|j: JobView| !gone(j)) =~= (|j: JobView| !(j.state == JobState::Fetching)));
        }
        count
    }

    /// Sets the failed segments of a job back to pending. The number of them is returned.
    pub fn reset_failed_segments(&mut self, job_id: i64) -> (r: u64)
        requires
            old(self)@.is_valid(),
        ensures
            final(self)@.is_valid(),
            final(self)@ == old(self)@.with_segments(
                |s: SegmentView|
                    s.state == SegmentState::Failed && old(self)@.is_of_job(s, job_id as int),
                SegmentState::Pending,
            ),
            r == old(self)@.segments.filter(
                |s: SegmentView|
                    s.state == SegmentState::Failed && old(self)@.is_of_job(s, job_id as int),
            ).len(),
    {
        let ghost q = self@;
        let ghost which = |s: SegmentView|
            s.state == SegmentState::Failed && q.is_of_job(s, job_id as int);
        let ghost new = q.with_segments(which, SegmentState::Pending);
        let mut count: u64 = 0;
        let mut i: usize = 0;
        proof {
            reveal(Seq::filter);
            assert(q.segments.take(0) == Seq::<SegmentView>::empty());
        }
        while i < self.segments.len()
            invariant
                i <= self.segments.len(),
                self.segments.len() == q.segments.len(),
                which == (|s: SegmentView|
                    s.state == SegmentState::Failed && q.is_of_job(s, job_id as int)),
                new == q.with_segments(which, SegmentState::Pending),
                self@ == (QueueView { segments: self@.segments, ..q }),
                forall|k: int| 0 <= k < i ==> #[trigger] self@.segments[k] == new.segments[k],
                forall|k: int|
                    i <= k < self@.segments.len() ==> #[trigger] self@.segments[k]
                        == q.segments[k],
                count == q.segments.take(i as int).filter(which).len(),
                count <= i,
            decreases self.segments.len() - i,
        {
            assert(self@.segments[i as int] == self.segments@[i as int]@);
            proof {
                assert(q.segments.take(i + 1) == q.segments.take(i as int).push(
                    q.segments[i as int],
                ));
                order::filter_of_push(q.segments.take(i as int), q.segments[i as int], which);
            }
            let ghost before = self@.segments;
            if self.segments[i].state == SegmentState::Failed && self.file_is_of_job(
                self.segments[i].file_id,
                job_id,
            ) {
                self.segments[i].state = SegmentState::Pending;
                count += 1;
                assert(self@.segments =~= before.update(
                    i as int,
                    SegmentView { state: SegmentState::Pending, ..before[i as int] },
                ));
            }
            i += 1;
        }
        proof {
            assert(q.segments.take(i as int) == q.segments);
            assert(self@.segments =~= new.segments);
            assert(self@ =~= new);
            lemma_segments_keep_valid(q, which, SegmentState::Pending);
        }
        count
    }

    /// Whether the file `file_id` belongs to the job `job_id`.
    fn file_is_of_job(&self, file_id: i64, job_id: i64) -> (r: bool)
        ensures
            r == exists|i: int|
                0 <= i < self@.files.len() && (#[trigger] self@.files[i]).id == file_id
                    && self@.files[i].job_id == job_id,
    {
        let mut i: usize = 0;
        while i < self.files.len()
            invariant
                i <= self.files.len(),
                forall|k: int|
                    0 <= k < i ==> !((#[trigger] self@.files[k]).id == file_id
                        && self@.files[k].job_id == job_id),
            decreases self.files.len() - i,
        {
            assert(self@.files[i as int] == self.files@[i as int]@);
            if self.files[i].id == file_id && self.files[i].job_id == job_id {
                return true;
            }
            i += 1;
        }
        false
    }
}

proof fn lemma_queued_at(q: QueueView, i: int)
    requires
        q.is_valid(),
        0 <= i < q.jobs.len(),
    ensures
        q.is_queued(q.jobs[i].id) == (q.jobs[i].state == JobState::Queued),
{
    assert forall|k: int| 0 <= k < q.jobs.len() && (#[trigger] q.jobs[k]).id == q.jobs[i].id implies k
        == i by {
        assert(job_ids(q.jobs)[k] == q.jobs[k].id && job_ids(q.jobs)[i] == q.jobs[i].id);
    }
}

proof fn lemma_listed_push(ids: Seq<i64>, new_id: i64, id: int)
    ensures
        listed(ids.push(new_id), id) == (listed(ids, id) || id == new_id),
{
    let now = ids.push(new_id);
    if listed(ids, id) {
        let i = choose|i: int| 0 <= i < ids.len() && #[trigger] ids[i] == id;
        assert(now[i] == id);
    }
    assert(now[ids.len() as int] == new_id);
    if listed(now, id) && id != new_id {
        let i = choose|i: int| 0 <= i < now.len() && #[trigger] now[i] == id;
        assert(ids[i] == id);
    }
}

proof fn lemma_requeued_valid(q: QueueView)
    requires
        q.is_valid(),
    ensures
        q.requeued().is_valid(),
        !q.requeued().is_downloading(),
{
    assert(job_ids(q.requeued().jobs) =~= job_ids(q.jobs));
}

/// Removing the jobs that are fetching removes none that was interrupted.
proof fn lemma_two_filters(jobs: Seq<JobView>, paused: Seq<i64>)
    ensures
        jobs.filter(|j: JobView| !(j.state == JobState::Fetching)).filter(
            |j: JobView| was_interrupted(j, paused),
        ).len() == jobs.filter(|j: JobView| was_interrupted(j, paused)).len(),
    decreases jobs.len(),
{
    let rest = |j: JobView| !(j.state == JobState::Fetching);
    let busy = |j: JobView| was_interrupted(j, paused);
    if jobs.len() == 0 {
        reveal(Seq::filter);
    } else {
        let t = jobs.drop_last();
        let x = jobs.last();
        lemma_two_filters(t, paused);
        assert(t.push(x) == jobs);
        order::filter_of_push(t, x, rest);
        order::filter_of_push(t, x, busy);
        order::filter_of_push(t.filter(rest), x, busy);
    }
}

proof fn lemma_segments_keep_valid(
    q: QueueView,
    which: spec_fn(SegmentView) -> bool,
    state: SegmentState,
)
    requires
        q.is_valid(),
    ensures
        q.with_segments(which, state).is_valid(),
{
    let r = q.with_segments(which, state);
    assert(segment_ids(r.segments) =~= segment_ids(q.segments));
    assert forall|i: int| 0 <= i < r.segments.len() implies file_ids(r.files).contains(
        (#[trigger] r.segments[i]).file_id,
    ) by {
        assert(r.segments[i].file_id == q.segments[i].file_id);
    }
}

/// A count as the 32-bit number that is kept of it.
pub open spec fn narrow(n: int) -> u32 {
    (n as u64) as u32
}

/// The row of the file `f`, at position `index` of the job.
pub open spec fn file_row(f: NzbFile, id: int, job_id: int, index: int) -> FileView {
    FileView {
        id,
        job_id,
        filename: f.filename@,
        yenc_name: None,
        subject: f.subject@,
        poster: f.poster@,
        date: f.date,
        segment_count: f.segment_count,
        file_index: narrow(index),
    }
}

/// The row of the article `s`. One that the NZB file has no article for is missing.
pub open spec fn segment_row(s: NzbSegment, id: int, file_id: int) -> SegmentView {
    SegmentView {
        id,
        file_id,
        number: s.number,
        message_id: s.message_id@,
        bytes: s.bytes,
        missing: s.missing,
        state: if s.missing {
            SegmentState::Missing
        } else {
            SegmentState::Pending
        },
    }
}

impl QueueView {
    /// The queue with a new job.
    pub open spec fn with_new_job(self, job: JobView) -> QueueView {
        QueueView { jobs: self.jobs.push(job), next_job: self.next_job + 1, ..self }
    }

    /// The queue with one more file of the job `job_id`, and its segments.
    pub open spec fn with_file(self, job_id: int, index: int, f: NzbFile) -> QueueView {
        QueueView {
            files: self.files.push(file_row(f, self.next_file, job_id, index)),
            segments: self.segments + Seq::new(
                f.segments@.len(),
                |k: int| segment_row(f.segments@[k], self.next_segment + k, self.next_file),
            ),
            next_file: self.next_file + 1,
            next_segment: self.next_segment + f.segments@.len(),
            ..self
        }
    }

    /// The queue with the files of a release as files of the job `job_id`.
    pub open spec fn with_release(self, job_id: int, files: Seq<NzbFile>) -> QueueView
        decreases files.len(),
    {
        if files.len() == 0 {
            self
        } else {
            self.with_release(job_id, files.drop_last()).with_file(
                job_id,
                files.len() - 1,
                files.last(),
            )
        }
    }

    /// Whether there are ids for the files and segments of a release.
    pub open spec fn has_room(self, files: Seq<NzbFile>) -> bool {
        &&& self.next_file + files.len() <= i64::MAX
        &&& self.next_segment + nzb::articles_of(files) <= i64::MAX
    }
}

/// A new job.
pub open spec fn new_job(
    id: int,
    name: Seq<char>,
    output_dir: Seq<char>,
    priority: i64,
    state: JobState,
    files: Seq<NzbFile>,
) -> JobView {
    JobView {
        id,
        name,
        output_dir,
        state,
        priority,
        file_count: narrow(files.len() as int),
        files_done: 0,
        total_segments: nzb::segments_of(files) as u32,
        segments_done: 0,
        total_bytes: nzb::bytes_of(files) as u64,
        downloaded_bytes: 0,
        error: None,
        archive_password: None,
    }
}

/// A job with what a release says of it. It waits for the download.
pub open spec fn populated(
    j: JobView,
    name: Seq<char>,
    output_dir: Seq<char>,
    files: Seq<NzbFile>,
) -> JobView {
    JobView {
        name,
        output_dir,
        state: JobState::Queued,
        file_count: narrow(files.len() as int),
        total_segments: nzb::segments_of(files) as u32,
        total_bytes: nzb::bytes_of(files) as u64,
        ..j
    }
}

proof fn lemma_release_counts(q: QueueView, job_id: int, files: Seq<NzbFile>)
    ensures
        q.with_release(job_id, files).next_file == q.next_file + files.len(),
        q.with_release(job_id, files).next_segment == q.next_segment + nzb::articles_of(files),
        q.with_release(job_id, files).jobs == q.jobs,
        q.with_release(job_id, files).next_job == q.next_job,
    decreases files.len(),
{
    if files.len() > 0 {
        lemma_release_counts(q, job_id, files.drop_last());
    }
}

proof fn lemma_with_file_valid(q: QueueView, job_id: int, index: int, f: NzbFile)
    requires
        q.is_valid(),
        q.has_job(job_id),
    ensures
        q.with_file(job_id, index, f).is_valid(),
{
    let r = q.with_file(job_id, index, f);
    let n = q.files.len();
    assert(file_ids(r.files) =~= file_ids(q.files).push(q.next_file));
    assert forall|i: int| 0 <= i < segment_ids(r.segments).len() implies #[trigger] segment_ids(
        r.segments,
    )[i] == if i < q.segments.len() {
        segment_ids(q.segments)[i]
    } else {
        q.next_segment + (i - q.segments.len())
    } by {}
    assert forall|i: int| 0 <= i < r.files.len() implies job_ids(r.jobs).contains(
        (#[trigger] r.files[i]).job_id,
    ) by {
        if i < n {
            assert(r.files[i] == q.files[i]);
        }
    }
    assert forall|i: int| 0 <= i < r.segments.len() implies file_ids(r.files).contains(
        (#[trigger] r.segments[i]).file_id,
    ) by {
        if i < q.segments.len() {
            assert(r.segments[i] == q.segments[i]);
            let id = q.segments[i].file_id;
            let k = choose|k: int| 0 <= k < file_ids(q.files).len() && file_ids(q.files)[k] == id;
            assert(file_ids(r.files)[k] == id);
        } else {
            assert(file_ids(r.files)[n as int] == q.next_file);
        }
    }
}

proof fn lemma_with_release_valid(q: QueueView, job_id: int, files: Seq<NzbFile>)
    requires
        q.is_valid(),
        q.has_job(job_id),
    ensures
        q.with_release(job_id, files).is_valid(),
    decreases files.len(),
{
    if files.len() > 0 {
        lemma_with_release_valid(q, job_id, files.drop_last());
        lemma_release_counts(q, job_id, files.drop_last());
        lemma_with_file_valid(
            q.with_release(job_id, files.drop_last()),
            job_id,
            files.len() - 1,
            files.last(),
        );
    }
}

proof fn lemma_new_job_valid(q: QueueView, job: JobView)
    requires
        q.is_valid(),
        job.id == q.next_job,
        job.state != JobState::Downloading,
    ensures
        q.with_new_job(job).is_valid(),
        q.with_new_job(job).has_job(job.id),
{
    let r = q.with_new_job(job);
    assert(job_ids(r.jobs) =~= job_ids(q.jobs).push(job.id));
    assert(job_ids(r.jobs)[q.jobs.len() as int] == job.id);
    assert forall|i: int| 0 <= i < r.files.len() implies job_ids(r.jobs).contains(
        (#[trigger] r.files[i]).job_id,
    ) by {
        let id = q.files[i].job_id;
        assert(job_ids(q.jobs).contains(id));
        let k = choose|k: int| 0 <= k < job_ids(q.jobs).len() && job_ids(q.jobs)[k] == id;
        assert(job_ids(r.jobs)[k] == id);
    }
    assert forall|a: int, b: int| 0 <= a < b < r.jobs.len() implies (#[trigger] r.jobs[a]).state
        != JobState::Downloading || (#[trigger] r.jobs[b]).state != JobState::Downloading by {
        if b < q.jobs.len() {
            assert(r.jobs[a] == q.jobs[a] && r.jobs[b] == q.jobs[b]);
        }
    }
}

/// The number of articles of a release, or the largest number.
fn count_articles(files: &Vec<NzbFile>) -> (r: u64)
    ensures
        r == if nzb::articles_of(files@) <= u64::MAX {
            nzb::articles_of(files@) as u64
        } else {
            u64::MAX
        },
{
    let mut sum: u64 = 0;
    assert(files@.take(0) == Seq::<NzbFile>::empty());
    for i in 0..files.len()
        invariant
            sum == if nzb::articles_of(files@.take(i as int)) <= u64::MAX {
                nzb::articles_of(files@.take(i as int)) as u64
            } else {
                u64::MAX
            },
    {
        assert(files@.take(i + 1).drop_last() == files@.take(i as int));
        sum = sum.saturating_add(files[i].segments.len() as u64);
    }
    assert(files@.take(files@.len() as int) == files@);
    sum
}

impl QueueManager {
    fn add_file(&mut self, job_id: i64, index: usize, f: &NzbFile)
        requires
            old(self)@.next_file < i64::MAX,
            old(self)@.next_segment + f.segments@.len() <= i64::MAX,
        ensures
            final(self)@ == old(self)@.with_file(job_id as int, index as int, *f),
    {
        let ghost q = self@;
        let file_id: i64 = self.next_file;
        self.files.push(
            QueueFile {
                id: file_id,
                job_id,
                filename: f.filename.clone(),
                yenc_name: None,
                subject: f.subject.clone(),
                poster: f.poster.clone(),
                date: f.date,
                segment_count: f.segment_count,
                file_index: (index as u64) as u32,
            },
        );
        self.next_file = self.next_file + 1;
        let ghost after = q.with_file(job_id as int, index as int, *f);
        assert(self@.files =~= after.files);
        let n: usize = f.segments.len();
        let mut k: usize = 0;
        while k < n
            invariant
                k <= n,
                n == f.segments.len(),
                file_id == q.next_file,
                q.next_segment + n <= i64::MAX,
                after == q.with_file(job_id as int, index as int, *f),
                self@ == (QueueView {
                    segments: self@.segments,
                    next_segment: q.next_segment + k,
                    ..after
                }),
                self@.segments == after.segments.take(q.segments.len() + k),
            decreases n - k,
        {
            let ghost had = self@.segments;
            let s = &f.segments[k];
            let state = if s.missing {
                SegmentState::Missing
            } else {
                SegmentState::Pending
            };
            let id: i64 = self.next_segment;
            self.segments.push(
                QueueSegment {
                    id,
                    file_id,
                    number: s.number,
                    message_id: s.message_id.clone(),
                    bytes: s.bytes,
                    missing: s.missing,
                    state,
                },
            );
            self.next_segment = self.next_segment + 1;
            proof {
                let row = segment_row(f.segments@[k as int], q.next_segment + k, q.next_file);
                assert(self@.segments =~= had.push(row));
                assert(after.segments[q.segments.len() + k] == row);
                assert(after.segments.take(q.segments.len() + k + 1) =~= after.segments.take(
                    q.segments.len() + k,
                ).push(row));
            }
            k += 1;
        }
        assert(after.segments.take(q.segments.len() + n) =~= after.segments);
        assert(self@ =~= after);
    }

    fn add_release(&mut self, job_id: i64, nzb: &Nzb)
        requires
            old(self)@.has_room(nzb.files@),
        ensures
            final(self)@ == old(self)@.with_release(job_id as int, nzb.files@),
    {
        let ghost q = self@;
        let ghost files = nzb.files@;
        let n: usize = nzb.files.len();
        let mut i: usize = 0;
        assert(files.take(0) == Seq::<NzbFile>::empty());
        while i < n
            invariant
                i <= n,
                n == files.len(),
                files == nzb.files@,
                q.has_room(files),
                self@ == q.with_release(job_id as int, files.take(i as int)),
            decreases n - i,
        {
            proof {
                assert(files.take(i + 1).drop_last() == files.take(i as int));
                lemma_release_counts(q, job_id as int, files.take(i as int));
                lemma_release_counts(q, job_id as int, files.take(i + 1));
                nzb::sums_grow(files, i + 1);
            }
            self.add_file(job_id, i, &nzb.files[i]);
            i += 1;
        }
        assert(files.take(n as int) == files);
    }

    fn room_for(&self, nzb: &Nzb) -> (r: bool)
        requires
            self@.is_valid(),
        ensures
            r == self@.has_room(nzb.files@),
    {
        let files_left: u64 = (i64::MAX - self.next_file) as u64;
        let segments_left: u64 = (i64::MAX - self.next_segment) as u64;
        nzb.files.len() as u64 <= files_left && count_articles(&nzb.files) <= segments_left
    }

    /// Adds a job whose NZB file is still being fetched. Its id is returned.
    pub fn create_fetching_job(&mut self, name: &str, output_dir: &str, priority: i64) -> (r:
        Result<i64, QueueError>)
        requires
            old(self)@.is_valid(),
        ensures
            final(self)@.is_valid(),
            match r {
                Ok(id) => id == old(self)@.next_job && final(self)@ == old(self)@.with_new_job(
                    new_job(id as int, name@, output_dir@, priority, JobState::Fetching, Seq::empty()),
                ),
                Err(e) => e == QueueError::Full && final(self)@ == old(self)@,
            },
            r is Ok == (old(self)@.next_job < i64::MAX),
    {
        if self.next_job == i64::MAX {
            return Err(QueueError::Full);
        }
        let id: i64 = self.next_job;
        let ghost row = new_job(
            id as int,
            name@,
            output_dir@,
            priority,
            JobState::Fetching,
            Seq::empty(),
        );
        proof {
            lemma_new_job_valid(self@, row);
        }
        self.jobs.push(
            QueueJob {
                id,
                name: name.to_owned(),
                output_dir: output_dir.to_owned(),
                state: JobState::Fetching,
                priority,
                file_count: 0,
                files_done: 0,
                total_segments: 0,
                segments_done: 0,
                total_bytes: 0,
                downloaded_bytes: 0,
                error: None,
                archive_password: None,
            },
        );
        self.next_job = self.next_job + 1;
        assert(self@ =~= old(self)@.with_new_job(row));
        Ok(id)
    }

    /// Gives a job the files and segments of its release; it then waits for the download.
    pub fn populate_job(
        &mut self,
        job_id: i64,
        nzb: &Nzb,
        output_dir: &str,
        display_name: Option<&str>,
    ) -> (r: Result<(), QueueError>)
        requires
            old(self)@.is_valid(),
            nzb::segments_of(nzb.files@) <= u32::MAX,
            nzb::bytes_of(nzb.files@) <= u64::MAX,
        ensures
            final(self)@.is_valid(),
            match r {
                Ok(_) => final(self)@ == if old(self)@.has_job(job_id as int) {
                    old(self)@.with_job(
                        job_id as int,
                        |j: JobView|
                            populated(
                                j,
                                nzb.job_name(
                                    match display_name {
                                        Some(n) => Some(n@),
                                        None => None,
                                    },
                                ),
                                output_dir@,
                                nzb.files@,
                            ),
                    ).with_release(job_id as int, nzb.files@)
                } else {
                    old(self)@
                },
                Err(e) => final(self)@ == old(self)@ && e == if old(self)@.has_job(job_id as int) {
                    QueueError::Full
                } else {
                    QueueError::NoSuchJob
                },
            },
            r is Ok == if old(self)@.has_job(job_id as int) {
                old(self)@.has_room(nzb.files@)
            } else {
                nzb.files@.len() == 0
            },
    {
        let name = nzb.name_of_job(display_name);
        let ghost change = |j: JobView|
            populated(
                j,
                nzb.job_name(
                    match display_name {
                        Some(n) => Some(n@),
                        None => None,
                    },
                ),
                output_dir@,
                nzb.files@,
            );
        match self.job_position(job_id) {
            Some(i) => {
                if !self.room_for(nzb) {
                    return Err(QueueError::Full);
                }
                let ghost before = self@;
                proof {
                    nzb::sums_grow(nzb.files@, 0);
                    lemma_with_job_at(self@, i as int, change);
                    lemma_change_keeps_valid(self@, i as int, change(self@.jobs[i as int]));
                }
                self.jobs[i].name = name;
                self.jobs[i].output_dir = output_dir.to_owned();
                self.jobs[i].state = JobState::Queued;
                self.jobs[i].file_count = (nzb.files.len() as u64) as u32;
                self.jobs[i].total_segments = nzb.total_segments();
                self.jobs[i].total_bytes = nzb.total_bytes();
                assert(self@ =~= before.with_job(job_id as int, change));
                let ghost q = self@;
                proof {
                    assert(job_ids(q.jobs) =~= job_ids(before.jobs));
                    lemma_with_release_valid(q, job_id as int, nzb.files@);
                }
                self.add_release(job_id, nzb);
                Ok(())
            },
            None => {
                if nzb.files.len() == 0 {
                    Ok(())
                } else {
                    Err(QueueError::NoSuchJob)
                }
            },
        }
    }

    /// Adds a job for a release; it waits for the download. Its id is returned.
    pub fn add_job(
        &mut self,
        nzb: &Nzb,
        output_dir: &str,
        priority: i64,
        display_name: Option<&str>,
    ) -> (r: Result<i64, QueueError>)
        requires
            old(self)@.is_valid(),
            nzb::segments_of(nzb.files@) <= u32::MAX,
            nzb::bytes_of(nzb.files@) <= u64::MAX,
        ensures
            final(self)@.is_valid(),
            match r {
                Ok(id) => id == old(self)@.next_job && final(self)@ == old(self)@.with_new_job(
                    new_job(
                        id as int,
                        nzb.job_name(
                            match display_name {
                                Some(n) => Some(n@),
                                None => None,
                            },
                        ),
                        output_dir@,
                        priority,
                        JobState::Queued,
                        nzb.files@,
                    ),
                ).with_release(id as int, nzb.files@),
                Err(e) => e == QueueError::Full && final(self)@ == old(self)@,
            },
            r is Ok == (old(self)@.next_job < i64::MAX && old(self)@.has_room(nzb.files@)),
    {
        if self.next_job == i64::MAX || !self.room_for(nzb) {
            return Err(QueueError::Full);
        }
        let id: i64 = self.next_job;
        let ghost row = new_job(
            id as int,
            nzb.job_name(
                match display_name {
                    Some(n) => Some(n@),
                    None => None,
                },
            ),
            output_dir@,
            priority,
            JobState::Queued,
            nzb.files@,
        );
        proof {
            nzb::sums_grow(nzb.files@, 0);
            lemma_new_job_valid(self@, row);
        }
        self.jobs.push(
            QueueJob {
                id,
                name: nzb.name_of_job(display_name),
                output_dir: output_dir.to_owned(),
                state: JobState::Queued,
                priority,
                file_count: (nzb.files.len() as u64) as u32,
                files_done: 0,
                total_segments: nzb.total_segments(),
                segments_done: 0,
                total_bytes: nzb.total_bytes(),
                downloaded_bytes: 0,
                error: None,
                archive_password: None,
            },
        );
        self.next_job = self.next_job + 1;
        assert(self@ =~= old(self)@.with_new_job(row));
        proof {
            lemma_with_release_valid(self@, id as int, nzb.files@);
        }
        self.add_release(id, nzb);
        Ok(id)
    }
}

/// By priority, lower first.
pub open spec fn by_priority() -> spec_fn(JobView, JobView) -> bool {
    |a: JobView, b: JobView| a.priority < b.priority
}

/// By position within the job.
pub open spec fn by_file_index() -> spec_fn(FileView, FileView) -> bool {
    |a: FileView, b: FileView| a.file_index < b.file_index
}

/// By position within the file.
pub open spec fn by_number() -> spec_fn(SegmentView, SegmentView) -> bool {
    |a: SegmentView, b: SegmentView| a.number < b.number
}

/// By position of the file within the job, then of the segment within the file.
pub open spec fn by_place() -> spec_fn((FileView, SegmentView), (FileView, SegmentView)) -> bool {
    |a: (FileView, SegmentView), b: (FileView, SegmentView)|
        a.0.file_index < b.0.file_index || (a.0.file_index == b.0.file_index && a.1.number
            < b.1.number)
}

/// Orders jobs by priority.
pub struct ByPriority;

impl Precedence<QueueJob> for ByPriority {
    open spec fn before(&self, a: JobView, b: JobView) -> bool {
        by_priority()(a, b)
    }

    fn is_before(&self, a: &QueueJob, b: &QueueJob) -> (r: bool) {
        a.priority < b.priority
    }
}

/// Orders files by position within the job.
pub struct ByFileIndex;

impl Precedence<QueueFile> for ByFileIndex {
    open spec fn before(&self, a: FileView, b: FileView) -> bool {
        by_file_index()(a, b)
    }

    fn is_before(&self, a: &QueueFile, b: &QueueFile) -> (r: bool) {
        a.file_index < b.file_index
    }
}

/// Orders segments by position within the file.
pub struct ByNumber;

impl Precedence<QueueSegment> for ByNumber {
    open spec fn before(&self, a: SegmentView, b: SegmentView) -> bool {
        by_number()(a, b)
    }

    fn is_before(&self, a: &QueueSegment, b: &QueueSegment) -> (r: bool) {
        a.number < b.number
    }
}

/// Orders segments of a job by position.
pub struct ByPlace;

impl Precedence<(QueueFile, QueueSegment)> for ByPlace {
    open spec fn before(&self, a: (FileView, SegmentView), b: (FileView, SegmentView)) -> bool {
        by_place()(a, b)
    }

    fn is_before(&self, a: &(QueueFile, QueueSegment), b: &(QueueFile, QueueSegment)) -> (r: bool) {
        a.0.file_index < b.0.file_index || (a.0.file_index == b.0.file_index && a.1.number
            < b.1.number)
    }
}

/// Whether the segment is still to be fetched.
pub open spec fn is_pending(s: SegmentView) -> bool {
    s.state == SegmentState::Pending && !s.missing
}

/// Whether nothing more is to be done for a segment in this state.
pub open spec fn is_completed(state: SegmentState) -> bool {
    state == SegmentState::Done || state == SegmentState::Missing || state
        == SegmentState::CrcMismatch
}

/// The first job that waits.
pub open spec fn first_queued(jobs: Seq<JobView>) -> Option<JobView>
    decreases jobs.len(),
{
    if jobs.len() == 0 {
        None
    } else if jobs[0].state == JobState::Queued {
        Some(jobs[0])
    } else {
        first_queued(jobs.skip(1))
    }
}

/// The sum of the sizes of a list of segments.
pub open spec fn sum_bytes(segments: Seq<SegmentView>) -> int
    decreases segments.len(),
{
    if segments.len() == 0 {
        0
    } else {
        sum_bytes(segments.drop_last()) + segments.last().bytes
    }
}

/// The segments to fetch of a list of files, each with its file.
pub open spec fn pending_rows(files: Seq<FileView>, segments: Seq<SegmentView>) -> Seq<
    (FileView, SegmentView),
>
    decreases files.len(),
{
    if files.len() == 0 {
        Seq::empty()
    } else {
        let f = files.last();
        pending_rows(files.drop_last(), segments) + segments.filter(
            |s: SegmentView| s.file_id == f.id && is_pending(s),
        ).map_values(|s: SegmentView| (f, s))
    }
}

/// Rows that stand next to each other and have the same file, put together under the file.
pub open spec fn runs(rows: Seq<(FileView, SegmentView)>) -> Seq<(FileView, Seq<SegmentView>)>
    decreases rows.len(),
{
    if rows.len() == 0 {
        Seq::empty()
    } else {
        let r = runs(rows.drop_last());
        let (f, s) = rows.last();
        if r.len() > 0 && r.last().0.id == f.id {
            r.drop_last().push((r.last().0, r.last().1.push(s)))
        } else {
            r.push((f, seq![s]))
        }
    }
}

impl QueueView {
    /// The jobs in the order of the queue: by priority, the older first.
    pub open spec fn jobs_in_order(self) -> Seq<JobView> {
        order::sorted(self.jobs, by_priority())
    }

    /// The files of a job, by position.
    pub open spec fn files_of(self, job_id: int) -> Seq<FileView> {
        order::sorted(self.files.filter(|f: FileView| f.job_id == job_id), by_file_index())
    }

    /// The segments of a file, as they were added.
    pub open spec fn segments_in(self, file_id: int) -> Seq<SegmentView> {
        self.segments.filter(|s: SegmentView| s.file_id == file_id)
    }

    /// The segments of a file, by position.
    pub open spec fn segments_of(self, file_id: int) -> Seq<SegmentView> {
        order::sorted(self.segments_in(file_id), by_number())
    }

    /// The segments of a job that are to be fetched, by position, under their files.
    pub open spec fn pending(self, job_id: int) -> Seq<(FileView, Seq<SegmentView>)> {
        runs(
            order::sorted(
                pending_rows(self.files.filter(|f: FileView| f.job_id == job_id), self.segments),
                by_place(),
            ),
        )
    }

    /// Whether a segment of the file is to be fetched.
    pub open spec fn has_pending(self, file_id: int) -> bool {
        exists|i: int|
            0 <= i < self.segments.len() && (#[trigger] self.segments[i]).file_id == file_id
                && is_pending(self.segments[i])
    }

    /// Whether every segment of the file is done, missing or corrupt.
    pub open spec fn all_completed(self, file_id: int) -> bool {
        forall|i: int|
            0 <= i < self.segments.len() && (#[trigger] self.segments[i]).file_id == file_id
                ==> is_completed(self.segments[i].state)
    }

    /// The file `id`.
    pub open spec fn file(self, id: int) -> FileView {
        self.files[choose|i: int| 0 <= i < self.files.len() && (#[trigger] self.files[i]).id == id]
    }

    /// The segments of the job `job_id`, as they were added.
    pub open spec fn segments_of_job(self, job_id: int) -> Seq<SegmentView> {
        self.segments.filter(|s: SegmentView| self.is_of_job(s, job_id))
    }

    /// The job with its counters brought up to date.
    pub open spec fn counted(self, j: JobView) -> JobView {
        let all = self.segments_of_job(j.id);
        JobView {
            segments_done: narrow(
                all.filter(|s: SegmentView| is_completed(s.state)).len() as int,
            ),
            files_done: narrow(
                self.files.filter(
                    |f: FileView| f.job_id == j.id && self.all_completed(f.id),
                ).len() as int,
            ),
            downloaded_bytes: sum_bytes(
                all.filter(|s: SegmentView| s.state == SegmentState::Done),
            ) as u64,
            ..j
        }
    }

    /// How far a file is.
    pub open spec fn stats_of(self, f: FileView) -> StatsView {
        let all = self.segments_in(f.id);
        StatsView {
            filename: f.filename,
            segment_count: f.segment_count,
            segments_done: narrow(
                all.filter(|s: SegmentView| s.state != SegmentState::Pending).len() as int,
            ),
            segments_missing: narrow(
                all.filter(
                    |s: SegmentView| s.missing || s.state == SegmentState::Missing,
                ).len() as int,
            ),
            total_bytes: sum_bytes(all) as u64,
            downloaded_bytes: sum_bytes(
                all.filter(|s: SegmentView| s.state == SegmentState::Done),
            ) as u64,
        }
    }

    /// The queue after a list of segment states was set, one after the other.
    pub open spec fn with_states(self, updates: Seq<(i64, u32, SegmentState)>) -> QueueView
        decreases updates.len(),
    {
        if updates.len() == 0 {
            self
        } else {
            let u = updates.last();
            self.with_states(updates.drop_last()).with_state(u.0 as int, u.1, u.2)
        }
    }

    /// The queue with the state of one segment set.
    pub open spec fn with_state(self, file_id: int, number: u32, state: SegmentState) -> QueueView {
        self.with_segments(
            |s: SegmentView| s.file_id == file_id && s.number == number,
            state,
        )
    }

    /// The queue with the real name of a file, unless it has one.
    pub open spec fn with_yenc_name(self, file_id: int, name: Seq<char>) -> QueueView {
        self.with_files(
            |f: FileView|
                f.id == file_id && (f.yenc_name is None || f.yenc_name->0.len() == 0),
            |f: FileView| FileView { yenc_name: Some(name), ..f },
        )
    }
}

spec fn in_file(file_id: int, only_pending: bool) -> spec_fn(SegmentView) -> bool {
    |s: SegmentView| s.file_id == file_id && (only_pending ==> is_pending(s))
}

proof fn lemma_sum_bytes_push(s: Seq<SegmentView>, x: SegmentView)
    ensures
        sum_bytes(s.push(x)) == sum_bytes(s) + x.bytes,
{
    assert(s.push(x).drop_last() == s);
}

proof fn lemma_sum_bytes_bound(s: Seq<SegmentView>)
    ensures
        0 <= sum_bytes(s) <= s.len() * u64::MAX,
    decreases s.len(),
{
    if s.len() > 0 {
        lemma_sum_bytes_bound(s.drop_last());
        assert((s.len() - 1) * u64::MAX + u64::MAX == s.len() * u64::MAX) by (nonlinear_arith);
    }
}

impl QueueManager {
    /// All jobs, in the order of the queue.
    pub fn list_jobs(&self) -> (r: Vec<QueueJob>)
        ensures
            order::views(r@) == self@.jobs_in_order(),
    {
        let mut r: Vec<QueueJob> = Vec::new();
        for i in 0..self.jobs.len()
            invariant
                r.len() == i,
                forall|k: int| 0 <= k < i ==> (#[trigger] r@[k])@ == self.jobs@[k]@,
        {
            r.push(self.jobs[i].clone());
        }
        assert(order::views(r@) =~= self@.jobs);
        sort(&mut r, &ByPriority);
        assert(order::rule::<QueueJob, ByPriority>(ByPriority) =~= by_priority());
        r
    }

    /// The job `job_id`.
    pub fn get_job(&self, job_id: i64) -> (r: Result<QueueJob, QueueError>)
        ensures
            match r {
                Ok(j) => j.id == job_id && self@.jobs.contains(j@) && self@.has_job(job_id as int),
                Err(e) => e == QueueError::NoSuchJob && !self@.has_job(job_id as int),
            },
    {
        match self.job_position(job_id) {
            Some(i) => {
                assert(self@.jobs[i as int] == self.jobs@[i as int]@);
                Ok(self.jobs[i].clone())
            },
            None => Err(QueueError::NoSuchJob),
        }
    }

    /// The files of a job, by position.
    pub fn list_files(&self, job_id: i64) -> (r: Vec<QueueFile>)
        ensures
            order::views(r@) == self@.files_of(job_id as int),
    {
        let mut r = self.files_in(job_id);
        sort(&mut r, &ByFileIndex);
        assert(order::rule::<QueueFile, ByFileIndex>(ByFileIndex) =~= by_file_index());
        r
    }

    fn files_in(&self, job_id: i64) -> (r: Vec<QueueFile>)
        ensures
            order::views(r@) == self@.files.filter(|f: FileView| f.job_id == job_id),
    {
        let ghost all = self@.files;
        let ghost keep = |f: FileView| f.job_id == job_id;
        let mut r: Vec<QueueFile> = Vec::new();
        proof {
            reveal(Seq::filter);
            assert(all.take(0) == Seq::<FileView>::empty());
            assert(order::views(r@) =~= all.take(0).filter(keep));
        }
        for i in 0..self.files.len()
            invariant
                all == self@.files,
                keep == (|f: FileView| f.job_id == job_id),
                order::views(r@) == all.take(i as int).filter(keep),
        {
            proof {
                assert(all[i as int] == self.files@[i as int]@);
                assert(all.take(i + 1) == all.take(i as int).push(all[i as int]));
                order::filter_of_push(all.take(i as int), all[i as int], keep);
            }
            if self.files[i].job_id == job_id {
                let ghost had = order::views(r@);
                r.push(self.files[i].clone());
                assert(order::views(r@) =~= had.push(all[i as int]));
            }
        }
        assert(all.take(all.len() as int) == all);
        r
    }

    /// The file `file_id`.
    pub fn get_file(&self, file_id: i64) -> (r: Result<QueueFile, QueueError>)
        ensures
            match r {
                Ok(f) => f.id == file_id && self@.files.contains(f@) && self@.has_file(file_id as int),
                Err(e) => e == QueueError::NoSuchFile && !self@.has_file(file_id as int),
            },
    {
        match self.file_position(file_id) {
            Some(i) => {
                assert(self@.files[i as int] == self.files@[i as int]@);
                Ok(self.files[i].clone())
            },
            None => Err(QueueError::NoSuchFile),
        }
    }

    /// Sets the real name of a file, as its articles give it. The first name stays.
    pub fn set_file_yenc_name(&mut self, file_id: i64, name: &str)
        requires
            old(self)@.is_valid(),
        ensures
            final(self)@.is_valid(),
            final(self)@ == old(self)@.with_yenc_name(file_id as int, name@),
    {
        let ghost q = self@;
        let ghost new = q.with_yenc_name(file_id as int, name@);
        let mut i: usize = 0;
        while i < self.files.len()
            invariant
                i <= self.files.len(),
                self.files.len() == q.files.len(),
                new == q.with_yenc_name(file_id as int, name@),
                self@ == (QueueView { files: self@.files, ..q }),
                forall|k: int| 0 <= k < i ==> #[trigger] self@.files[k] == new.files[k],
                forall|k: int|
                    i <= k < self@.files.len() ==> #[trigger] self@.files[k] == q.files[k],
            decreases self.files.len() - i,
        {
            assert(self@.files[i as int] == self.files@[i as int]@);
            let ghost before = self@.files;
            let open = match &self.files[i].yenc_name {
                Some(n) => chars_of(n).len() == 0,
                None => true,
            };
            if self.files[i].id == file_id && open {
                self.files[i].yenc_name = Some(name.to_owned());
                assert(self@.files =~= before.update(
                    i as int,
                    FileView { yenc_name: Some(name@), ..before[i as int] },
                ));
            }
            i += 1;
        }
        proof {
            assert(self@.files =~= new.files);
            assert(self@ =~= new);
            assert(file_ids(new.files) =~= file_ids(q.files));
            assert forall|k: int| 0 <= k < new.files.len() implies job_ids(new.jobs).contains(
                (#[trigger] new.files[k]).job_id,
            ) by {
                assert(new.files[k].job_id == q.files[k].job_id);
            }
        }
    }

    fn segments_where(&self, file_id: i64, only_pending: bool) -> (r: Vec<QueueSegment>)
        ensures
            order::views(r@) == self@.segments.filter(in_file(file_id as int, only_pending)),
    {
        let ghost all = self@.segments;
        let ghost keep = in_file(file_id as int, only_pending);
        let mut r: Vec<QueueSegment> = Vec::new();
        proof {
            reveal(Seq::filter);
            assert(all.take(0) == Seq::<SegmentView>::empty());
            assert(order::views(r@) =~= all.take(0).filter(keep));
        }
        for i in 0..self.segments.len()
            invariant
                all == self@.segments,
                keep == in_file(file_id as int, only_pending),
                order::views(r@) == all.take(i as int).filter(keep),
        {
            proof {
                assert(all[i as int] == self.segments@[i as int]@);
                assert(all.take(i + 1) == all.take(i as int).push(all[i as int]));
                order::filter_of_push(all.take(i as int), all[i as int], keep);
            }
            let s = &self.segments[i];
            if s.file_id == file_id && (!only_pending || (s.state == SegmentState::Pending
                && !s.missing)) {
                let ghost had = order::views(r@);
                r.push(s.clone());
                assert(order::views(r@) =~= had.push(all[i as int]));
            }
        }
        assert(all.take(all.len() as int) == all);
        r
    }

    /// The segments of a file, by position.
    pub fn list_segments(&self, file_id: i64) -> (r: Vec<QueueSegment>)
        ensures
            order::views(r@) == self@.segments_of(file_id as int),
    {
        let mut r = self.segments_where(file_id, false);
        assert(in_file(file_id as int, false) =~= (|s: SegmentView| s.file_id == file_id as int));
        sort(&mut r, &ByNumber);
        assert(order::rule::<QueueSegment, ByNumber>(ByNumber) =~= by_number());
        r
    }

    /// Sets the state of a segment.
    pub fn set_segment_state(&mut self, file_id: i64, segment_number: u32, state: SegmentState)
        requires
            old(self)@.is_valid(),
        ensures
            final(self)@.is_valid(),
            final(self)@ == old(self)@.with_state(file_id as int, segment_number, state),
    {
        let ghost q = self@;
        let ghost which = |s: SegmentView| s.file_id == file_id && s.number == segment_number;
        let ghost new = q.with_segments(which, state);
        let mut i: usize = 0;
        while i < self.segments.len()
            invariant
                i <= self.segments.len(),
                self.segments.len() == q.segments.len(),
                which == (|s: SegmentView| s.file_id == file_id && s.number == segment_number),
                new == q.with_segments(which, state),
                self@ == (QueueView { segments: self@.segments, ..q }),
                forall|k: int| 0 <= k < i ==> #[trigger] self@.segments[k] == new.segments[k],
                forall|k: int|
                    i <= k < self@.segments.len() ==> #[trigger] self@.segments[k]
                        == q.segments[k],
            decreases self.segments.len() - i,
        {
            assert(self@.segments[i as int] == self.segments@[i as int]@);
            let ghost before = self@.segments;
            if self.segments[i].file_id == file_id && self.segments[i].number == segment_number {
                self.segments[i].state = state;
                assert(self@.segments =~= before.update(
                    i as int,
                    SegmentView { state, ..before[i as int] },
                ));
            }
            i += 1;
        }
        proof {
            assert(self@.segments =~= new.segments);
            assert(self@ =~= new);
            assert(which =~= (|s: SegmentView|
                s.file_id == file_id as int && s.number == segment_number));
            lemma_segments_keep_valid(q, which, state);
        }
    }

    /// Sets the states of many segments, one after the other.
    pub fn set_segment_states_batch(&mut self, updates: &Vec<(i64, u32, SegmentState)>)
        requires
            old(self)@.is_valid(),
        ensures
            final(self)@.is_valid(),
            final(self)@ == old(self)@.with_states(updates@),
    {
        let ghost q = self@;
        let n: usize = updates.len();
        let mut i: usize = 0;
        assert(updates@.take(0) == Seq::<(i64, u32, SegmentState)>::empty());
        while i < n
            invariant
                n == updates.len(),
                i <= n,
                self@.is_valid(),
                self@ == q.with_states(updates@.take(i as int)),
            decreases n - i,
        {
            self.set_segment_state(updates[i].0, updates[i].1, updates[i].2);
            assert(updates@.take(i + 1).drop_last() == updates@.take(i as int));
            i += 1;
        }
        assert(updates@.take(n as int) == updates@);
    }

    /// Notes that no server has a segment, so that it is not fetched again.
    pub fn mark_segment_hopeless(&mut self, file_id: i64, segment_number: u32)
        requires
            old(self)@.is_valid(),
        ensures
            final(self)@.is_valid(),
            final(self)@ == old(self)@.with_state(
                file_id as int,
                segment_number,
                SegmentState::Missing,
            ),
    {
        self.set_segment_state(file_id, segment_number, SegmentState::Missing);
    }

    /// Notes that a segment has a wrong checksum.
    pub fn mark_segment_crc_mismatch(&mut self, file_id: i64, segment_number: u32)
        requires
            old(self)@.is_valid(),
        ensures
            final(self)@.is_valid(),
            final(self)@ == old(self)@.with_state(
                file_id as int,
                segment_number,
                SegmentState::CrcMismatch,
            ),
    {
        self.set_segment_state(file_id, segment_number, SegmentState::CrcMismatch);
    }

    /// Whether a segment of the file is to be fetched.
    pub fn file_has_pending(&self, file_id: i64) -> (r: bool)
        ensures
            r == self@.has_pending(file_id as int),
    {
        let mut i: usize = 0;
        while i < self.segments.len()
            invariant
                i <= self.segments.len(),
                forall|k: int|
                    0 <= k < i ==> !((#[trigger] self@.segments[k]).file_id == file_id
                        && is_pending(self@.segments[k])),
            decreases self.segments.len() - i,
        {
            let s = &self.segments[i];
            assert(self@.segments[i as int] == self.segments@[i as int]@);
            if s.file_id == file_id && s.state == SegmentState::Pending && !s.missing {
                return true;
            }
            i += 1;
        }
        false
    }

    fn is_all_completed(&self, file_id: i64) -> (r: bool)
        ensures
            r == self@.all_completed(file_id as int),
    {
        let mut i: usize = 0;
        while i < self.segments.len()
            invariant
                i <= self.segments.len(),
                forall|k: int|
                    0 <= k < i && (#[trigger] self@.segments[k]).file_id == file_id
                        ==> is_completed(self@.segments[k].state),
            decreases self.segments.len() - i,
        {
            let s = &self.segments[i];
            assert(self@.segments[i as int] == self.segments@[i as int]@);
            if s.file_id == file_id && (s.state == SegmentState::Pending || s.state
                == SegmentState::Failed) {
                return false;
            }
            i += 1;
        }
        true
    }

    /// The job to download next: of those that wait, the first in the order of the queue.
    pub fn next_queued_job(&self) -> (r: Option<QueueJob>)
        ensures
            match r {
                Some(j) => first_queued(self@.jobs_in_order()) == Some(j@),
                None => first_queued(self@.jobs_in_order()) is None,
            },
    {
        let jobs = self.list_jobs();
        let ghost all = order::views(jobs@);
        let mut i: usize = 0;
        assert(all.skip(0) == all);
        while i < jobs.len()
            invariant
                i <= jobs.len(),
                all == order::views(jobs@),
                all == self@.jobs_in_order(),
                first_queued(all) == first_queued(all.skip(i as int)),
            decreases jobs.len() - i,
        {
            assert(all.skip(i as int)[0] == jobs@[i as int]@);
            if jobs[i].state == JobState::Queued {
                return Some(jobs[i].clone());
            }
            assert(all.skip(i as int).skip(1) == all.skip(i + 1));
            i += 1;
        }
        None
    }
}

spec fn not_pending() -> spec_fn(SegmentView) -> bool {
    |s: SegmentView| s.state != SegmentState::Pending
}

spec fn completed() -> spec_fn(SegmentView) -> bool {
    |s: SegmentView| is_completed(s.state)
}

spec fn is_done() -> spec_fn(SegmentView) -> bool {
    |s: SegmentView| s.state == SegmentState::Done
}

spec fn is_lost() -> spec_fn(SegmentView) -> bool {
    |s: SegmentView| s.missing || s.state == SegmentState::Missing
}

/// Running totals over a list of segments.
struct Totals {
    tried: u64,
    completed: u64,
    lost: u64,
    bytes: u128,
    done_bytes: u128,
}

impl Totals {
    spec fn are_of(self, s: Seq<SegmentView>) -> bool {
        &&& self.tried == s.filter(not_pending()).len()
        &&& self.completed == s.filter(completed()).len()
        &&& self.lost == s.filter(is_lost()).len()
        &&& self.bytes == sum_bytes(s)
        &&& self.done_bytes == sum_bytes(s.filter(is_done()))
    }

    fn none() -> (r: Self)
        ensures
            r.are_of(Seq::empty()),
    {
        proof {
            reveal(Seq::filter);
        }
        Totals { tried: 0, completed: 0, lost: 0, bytes: 0, done_bytes: 0 }
    }

    fn count(&mut self, segment: &QueueSegment, Ghost(s): Ghost<Seq<SegmentView>>)
        requires
            old(self).are_of(s),
            s.len() < u64::MAX,
        ensures
            final(self).are_of(s.push(segment@)),
    {
        proof {
            order::filter_of_push(s, segment@, not_pending());
            order::filter_of_push(s, segment@, completed());
            order::filter_of_push(s, segment@, is_lost());
            order::filter_of_push(s, segment@, is_done());
            s.lemma_filter_len(not_pending());
            s.lemma_filter_len(completed());
            s.lemma_filter_len(is_lost());
            s.lemma_filter_len(is_done());
            lemma_sum_bytes_push(s, segment@);
            lemma_sum_bytes_push(s.filter(is_done()), segment@);
            lemma_sum_bytes_bound(s);
            lemma_sum_bytes_bound(s.filter(is_done()));
            lemma_product_bound(s.len() as int);
            lemma_product_bound(s.filter(is_done()).len() as int);
        }
        if segment.state != SegmentState::Pending {
            self.tried = self.tried + 1;
            if segment.state != SegmentState::Failed {
                self.completed = self.completed + 1;
            }
        }
        if segment.missing || segment.state == SegmentState::Missing {
            self.lost = self.lost + 1;
        }
        self.bytes = self.bytes + segment.bytes as u128;
        if segment.state == SegmentState::Done {
            self.done_bytes = self.done_bytes + segment.bytes as u128;
        }
    }

    fn stats(&self, file: &QueueFile, Ghost(q): Ghost<QueueView>) -> (r: JobFileStats)
        requires
            self.are_of(q.segments_in(file@.id)),
        ensures
            r@ == q.stats_of(file@),
    {
        assert(is_done() =~= (|s: SegmentView| s.state == SegmentState::Done));
        assert(not_pending() =~= (|s: SegmentView| s.state != SegmentState::Pending));
        assert(is_lost() =~= (|s: SegmentView| s.missing || s.state == SegmentState::Missing));
        JobFileStats {
            filename: file.filename.clone(),
            segment_count: file.segment_count,
            segments_done: self.tried as u32,
            segments_missing: self.lost as u32,
            total_bytes: self.bytes as u64,
            downloaded_bytes: self.done_bytes as u64,
        }
    }
}

proof fn lemma_product_bound(n: int)
    requires
        0 <= n < u64::MAX,
    ensures
        n * u64::MAX + u64::MAX <= u128::MAX,
{
    assert(n * 0xffff_ffff_ffff_ffff <= 0xffff_ffff_ffff_fffe * 0xffff_ffff_ffff_ffff)
        by (nonlinear_arith)
        requires
            0 <= n < 0xffff_ffff_ffff_ffff,
    ;
}

/// What a list of files with their segments holds.
pub open spec fn run_views(v: Seq<(QueueFile, Vec<QueueSegment>)>) -> Seq<
    (FileView, Seq<SegmentView>),
> {
    v.map_values(|r: (QueueFile, Vec<QueueSegment>)| (r.0@, order::views(r.1@)))
}

impl QueueManager {
    fn pending_list(&self, job_id: i64) -> (r: Vec<(QueueFile, QueueSegment)>)
        ensures
            order::views(r@) == pending_rows(
                self@.files.filter(|f: FileView| f.job_id == job_id),
                self@.segments,
            ),
    {
        let files = self.files_in(job_id);
        let ghost fs = order::views(files@);
        let mut rows: Vec<(QueueFile, QueueSegment)> = Vec::new();
        let n: usize = files.len();
        let mut i: usize = 0;
        assert(fs.take(0) == Seq::<FileView>::empty());
        assert(order::views(rows@) =~= pending_rows(fs.take(0), self@.segments));
        while i < n
            invariant
                n == files.len(),
                i <= n,
                fs == order::views(files@),
                order::views(rows@) == pending_rows(fs.take(i as int), self@.segments),
            decreases n - i,
        {
            let ghost f = files@[i as int]@;
            let ghost before = order::views(rows@);
            let found = self.segments_where(files[i].id, true);
            let ghost all = order::views(found@);
            let ghost pair = |s: SegmentView| (f, s);
            proof {
                assert(fs[i as int] == f);
                assert(fs.take(i + 1).drop_last() == fs.take(i as int));
                assert(fs.take(i + 1).last() == f);
                assert(in_file(f.id, true) =~= (|s: SegmentView|
                    s.file_id == f.id && is_pending(s)));
                assert(before + all.map_values(pair).take(0) =~= before);
            }
            let mut k: usize = 0;
            while k < found.len()
                invariant
                    i < n == files.len(),
                    k <= found.len(),
                    f == files@[i as int]@,
                    pair == (|s: SegmentView| (f, s)),
                    all == order::views(found@),
                    order::views(rows@) == before + all.map_values(pair).take(k as int),
                decreases found.len() - k,
            {
                let ghost had = order::views(rows@);
                rows.push((files[i].clone(), found[k].clone()));
                proof {
                    assert(order::views(rows@) =~= had.push((f, all[k as int])));
                    assert(all.map_values(pair).take(k + 1) =~= all.map_values(pair).take(
                        k as int,
                    ).push(pair(all[k as int])));
                }
                k += 1;
            }
            assert(all.map_values(pair).take(k as int) =~= all.map_values(pair));
            i += 1;
        }
        assert(fs.take(n as int) == fs);
        rows
    }

    /// The segments of a job that are to be fetched, by position, under their files.
    pub fn pending_segments(&self, job_id: i64) -> (r: Vec<(QueueFile, Vec<QueueSegment>)>)
        ensures
            run_views(r@) == self@.pending(job_id as int),
    {
        let mut rows = self.pending_list(job_id);
        sort(&mut rows, &ByPlace);
        assert(order::rule::<(QueueFile, QueueSegment), ByPlace>(ByPlace) =~= by_place());
        let ghost all = order::views(rows@);
        let n: usize = rows.len();
        let mut result: Vec<(QueueFile, Vec<QueueSegment>)> = Vec::new();
        let mut i: usize = 0;
        assert(all.take(0) == Seq::<(FileView, SegmentView)>::empty());
        assert(run_views(result@) =~= runs(all.take(0)));
        while i < n
            invariant
                n == rows.len(),
                i <= n,
                all == order::views(rows@),
                run_views(result@) == runs(all.take(i as int)),
            decreases n - i,
        {
            let ghost f = rows@[i as int].0@;
            let ghost seg = rows@[i as int].1@;
            let ghost had = run_views(result@);
            proof {
                assert(all[i as int] == (f, seg));
                assert(all.take(i + 1).drop_last() == all.take(i as int));
                assert(all.take(i + 1).last() == (f, seg));
            }
            let m: usize = result.len();
            let same = m > 0 && result[m - 1].0.id == rows[i].0.id;
            assert(m > 0 ==> had.last() == (
                result@[m - 1].0@,
                order::views(result@[m - 1].1@),
            ));
            if same {
                let mut last = result.pop().unwrap();
                let ghost before = order::views(last.1@);
                let ghost file = last.0@;
                last.1.push(rows[i].1.clone());
                assert(order::views(last.1@) =~= before.push(seg));
                result.push(last);
                assert(run_views(result@) =~= had.drop_last().push((file, before.push(seg))));
            } else {
                let mut found: Vec<QueueSegment> = Vec::new();
                found.push(rows[i].1.clone());
                assert(order::views(found@) =~= seq![seg]);
                result.push((rows[i].0.clone(), found));
                assert(run_views(result@) =~= had.push((f, seq![seg])));
            }
            i += 1;
        }
        assert(all.take(n as int) == all);
        result
    }

    /// Brings the counters of the job of a file up to date.
    pub fn refresh_job_counts(&mut self, file_id: i64) -> (r: Result<(), QueueError>)
        requires
            old(self)@.is_valid(),
            old(self)@.has_file(file_id as int) ==> old(self)@.segments_of_job(
                old(self)@.file(file_id as int).job_id,
            ).len() > 0,
        ensures
            final(self)@.is_valid(),
            match r {
                Ok(_) => final(self)@ == old(self)@.with_job(
                    old(self)@.file(file_id as int).job_id,
                    |j: JobView| old(self)@.counted(j),
                ),
                Err(e) => final(self)@ == old(self)@ && e == if old(self)@.has_file(
                    file_id as int,
                ) {
                    QueueError::Overflow
                } else {
                    QueueError::NoSuchFile
                },
            },
            r is Ok == (old(self)@.has_file(file_id as int) && sum_bytes(
                old(self)@.segments_of_job(old(self)@.file(file_id as int).job_id).filter(
                    |s: SegmentView| s.state == SegmentState::Done,
                ),
            ) <= i64::MAX),
    {
        let ghost q = self@;
        let at: usize = match self.file_position(file_id) {
            Some(i) => i,
            None => return Err(QueueError::NoSuchFile),
        };
        let job_id: i64 = self.files[at].job_id;
        proof {
            assert(q.files[at as int] == self.files@[at as int]@);
            let c = choose|i: int|
                0 <= i < q.files.len() && (#[trigger] q.files[i]).id == file_id as int;
            assert(file_ids(q.files)[c] == file_ids(q.files)[at as int]);
            assert(c == at);
        }
        let ghost of_job = |s: SegmentView| q.is_of_job(s, job_id as int);
        let ghost all = q.segments;
        let mut totals = Totals::none();
        let mut i: usize = 0;
        proof {
            reveal(Seq::filter);
            assert(all.take(0) == Seq::<SegmentView>::empty());
            assert(all.take(0).filter(of_job) =~= Seq::empty());
        }
        while i < self.segments.len()
            invariant
                i <= self.segments.len(),
                self@ == q,
                all == q.segments,
                of_job == (|s: SegmentView| q.is_of_job(s, job_id as int)),
                totals.are_of(all.take(i as int).filter(of_job)),
            decreases self.segments.len() - i,
        {
            proof {
                assert(all[i as int] == self.segments@[i as int]@);
                assert(all.take(i + 1) == all.take(i as int).push(all[i as int]));
                order::filter_of_push(all.take(i as int), all[i as int], of_job);
                all.take(i as int).lemma_filter_len(of_job);
            }
            if self.file_is_of_job(self.segments[i].file_id, job_id) {
                totals.count(&self.segments[i], Ghost(all.take(i as int).filter(of_job)));
            }
            i += 1;
        }
        assert(all.take(i as int) == all);
        assert(is_done() =~= (|s: SegmentView| s.state == SegmentState::Done));
        assert(completed() =~= (|s: SegmentView| is_completed(s.state)));
        if totals.done_bytes > i64::MAX as u128 {
            return Err(QueueError::Overflow);
        }
        let ghost finished = |f: FileView| f.job_id == job_id && q.all_completed(f.id);
        let mut files_done: u64 = 0;
        i = 0;
        proof {
            reveal(Seq::filter);
            assert(q.files.take(0) == Seq::<FileView>::empty());
        }
        while i < self.files.len()
            invariant
                i <= self.files.len(),
                self@ == q,
                finished == (|f: FileView| f.job_id == job_id && q.all_completed(f.id)),
                files_done == q.files.take(i as int).filter(finished).len(),
                files_done <= i,
            decreases self.files.len() - i,
        {
            proof {
                assert(q.files[i as int] == self.files@[i as int]@);
                assert(q.files.take(i + 1) == q.files.take(i as int).push(q.files[i as int]));
                order::filter_of_push(q.files.take(i as int), q.files[i as int], finished);
            }
            if self.files[i].job_id == job_id && self.is_all_completed(self.files[i].id) {
                files_done += 1;
            }
            i += 1;
        }
        assert(q.files.take(i as int) == q.files);
        let ghost change = |j: JobView| q.counted(j);
        match self.job_position(job_id) {
            Some(k) => {
                proof {
                    lemma_with_job_at(q, k as int, change);
                    lemma_same_state_keeps_valid(q, k as int, change(q.jobs[k as int]));
                    assert(finished =~= (|f: FileView|
                        f.job_id == q.jobs[k as int].id && q.all_completed(f.id)));
                    assert(of_job =~= (|s: SegmentView| q.is_of_job(s, q.jobs[k as int].id)));
                }
                self.jobs[k].segments_done = totals.completed as u32;
                self.jobs[k].files_done = files_done as u32;
                self.jobs[k].downloaded_bytes = totals.done_bytes as u64;
                assert(self@ =~= q.with_job(job_id as int, change));
            },
            None => {
                proof {
                    lemma_with_job_absent(q, job_id as int, change);
                }
            },
        }
        Ok(())
    }

    fn totals_of(&self, file: &QueueFile) -> (r: Totals)
        ensures
            r.are_of(self@.segments_in(file@.id)),
    {
        let ghost all = self@.segments;
        let ghost mine = |s: SegmentView| s.file_id == file@.id;
        let mut totals = Totals::none();
        let mut i: usize = 0;
        proof {
            reveal(Seq::filter);
            assert(all.take(0) == Seq::<SegmentView>::empty());
            assert(all.take(0).filter(mine) =~= Seq::empty());
        }
        while i < self.segments.len()
            invariant
                i <= self.segments.len(),
                all == self@.segments,
                mine == (|s: SegmentView| s.file_id == file@.id),
                totals.are_of(all.take(i as int).filter(mine)),
            decreases self.segments.len() - i,
        {
            proof {
                assert(all[i as int] == self.segments@[i as int]@);
                assert(all.take(i + 1) == all.take(i as int).push(all[i as int]));
                order::filter_of_push(all.take(i as int), all[i as int], mine);
                all.take(i as int).lemma_filter_len(mine);
            }
            if self.segments[i].file_id == file.id {
                totals.count(&self.segments[i], Ghost(all.take(i as int).filter(mine)));
            }
            i += 1;
        }
        assert(all.take(i as int) == all);
        totals
    }

    /// How far a file is. The sums of the sizes wrap around.
    pub fn file_stats(&self, file: &QueueFile) -> (r: JobFileStats)
        ensures
            r@ == self@.stats_of(file@),
    {
        let totals = self.totals_of(file);
        totals.stats(file, Ghost(self@))
    }

    /// How far each file of a job is, by position.
    pub fn job_file_stats(&self, job_id: i64) -> (r: Result<Vec<JobFileStats>, QueueError>)
        ensures
            match r {
                Ok(v) => order::views(v@) == self@.files_of(job_id as int).map_values(
                    |f: FileView| self@.stats_of(f),
                ),
                Err(e) => e == QueueError::Overflow,
            },
            r is Ok == forall|i: int|
                0 <= i < self@.files_of(job_id as int).len() ==> sum_bytes(
                    self@.segments_in((#[trigger] self@.files_of(job_id as int)[i]).id),
                ) <= i64::MAX,
    {
        let files = self.list_files(job_id);
        let ghost fs = self@.files_of(job_id as int);
        let ghost stats = |f: FileView| self@.stats_of(f);
        let mut r: Vec<JobFileStats> = Vec::new();
        let mut i: usize = 0;
        while i < files.len()
            invariant
                i <= files.len(),
                fs == order::views(files@),
                fs == self@.files_of(job_id as int),
                stats == (|f: FileView| self@.stats_of(f)),
                r.len() == i,
                forall|k: int| 0 <= k < i ==> (#[trigger] r@[k])@ == stats(fs[k]),
                forall|k: int|
                    0 <= k < i ==> sum_bytes(self@.segments_in((#[trigger] fs[k]).id)) <= i64::MAX,
            decreases files.len() - i,
        {
            assert(fs[i as int] == files@[i as int]@);
            let totals = self.totals_of(&files[i]);
            if totals.bytes > i64::MAX as u128 {
                return Err(QueueError::Overflow);
            }
            r.push(totals.stats(&files[i], Ghost(self@)));
            i += 1;
        }
        assert(order::views(r@) =~= fs.map_values(stats));
        Ok(r)
    }

    /// A queue with the given rows, or that they break a rule of the queue.
    pub fn restore(
        jobs: Vec<QueueJob>,
        files: Vec<QueueFile>,
        segments: Vec<QueueSegment>,
        next_job: i64,
        next_file: i64,
        next_segment: i64,
    ) -> (r: Result<Self, QueueError>)
        ensures
            ({
                let given = QueueView {
                    jobs: order::views(jobs@),
                    files: order::views(files@),
                    segments: order::views(segments@),
                    next_job: next_job as int,
                    next_file: next_file as int,
                    next_segment: next_segment as int,
                };
                match r {
                    Ok(q) => given.is_valid() && q@ == given,
                    Err(e) => !given.is_valid() && e == QueueError::Corrupt,
                }
            }),
    {
        let q = QueueManager { jobs, files, segments, next_job, next_file, next_segment };
        if q.ids_are_valid() && q.owners_are_valid() && q.has_one_download() {
            Ok(q)
        } else {
            Err(QueueError::Corrupt)
        }
    }

    fn ids_are_valid(&self) -> (r: bool)
        ensures
            r == (ids_ascend(job_ids(self@.jobs), self@.next_job) && ids_ascend(
                file_ids(self@.files),
                self@.next_file,
            ) && ids_ascend(segment_ids(self@.segments), self@.next_segment)),
    {
        let mut jobs: Vec<i64> = Vec::new();
        for i in 0..self.jobs.len()
            invariant
                jobs.len() == i,
                forall|k: int| 0 <= k < i ==> #[trigger] jobs@[k] == self.jobs@[k].id,
        {
            jobs.push(self.jobs[i].id);
        }
        let mut files: Vec<i64> = Vec::new();
        for i in 0..self.files.len()
            invariant
                files.len() == i,
                forall|k: int| 0 <= k < i ==> #[trigger] files@[k] == self.files@[k].id,
        {
            files.push(self.files[i].id);
        }
        let mut segments: Vec<i64> = Vec::new();
        for i in 0..self.segments.len()
            invariant
                segments.len() == i,
                forall|k: int| 0 <= k < i ==> #[trigger] segments@[k] == self.segments@[k].id,
        {
            segments.push(self.segments[i].id);
        }
        assert(as_ints(jobs@) =~= job_ids(self@.jobs));
        assert(as_ints(files@) =~= file_ids(self@.files));
        assert(as_ints(segments@) =~= segment_ids(self@.segments));
        do_ids_ascend(&jobs, self.next_job) && do_ids_ascend(&files, self.next_file)
            && do_ids_ascend(&segments, self.next_segment)
    }

    fn owners_are_valid(&self) -> (r: bool)
        ensures
            r == (files_owned(self@.files, self@.jobs) && segments_owned(
                self@.segments,
                self@.files,
            )),
    {
        let mut i: usize = 0;
        while i < self.files.len()
            invariant
                i <= self.files.len(),
                forall|k: int|
                    0 <= k < i ==> job_ids(self@.jobs).contains((#[trigger] self@.files[k]).job_id),
            decreases self.files.len() - i,
        {
            assert(self@.files[i as int] == self.files@[i as int]@);
            if self.job_position(self.files[i].job_id).is_none() {
                return false;
            }
            i += 1;
        }
        i = 0;
        while i < self.segments.len()
            invariant
                i <= self.segments.len(),
                files_owned(self@.files, self@.jobs),
                forall|k: int|
                    0 <= k < i ==> file_ids(self@.files).contains(
                        (#[trigger] self@.segments[k]).file_id,
                    ),
            decreases self.segments.len() - i,
        {
            assert(self@.segments[i as int] == self.segments@[i as int]@);
            if self.file_position(self.segments[i].file_id).is_none() {
                return false;
            }
            i += 1;
        }
        true
    }

    fn has_one_download(&self) -> (r: bool)
        ensures
            r == one_download(self@.jobs),
    {
        let mut found = false;
        let ghost mut at: int = 0;
        let mut i: usize = 0;
        while i < self.jobs.len()
            invariant
                i <= self.jobs.len(),
                found ==> 0 <= at < i && self@.jobs[at].state == JobState::Downloading,
                forall|k: int|
                    0 <= k < i && (#[trigger] self@.jobs[k]).state == JobState::Downloading ==> found
                        && k == at,
            decreases self.jobs.len() - i,
        {
            assert(self@.jobs[i as int] == self.jobs@[i as int]@);
            if self.jobs[i].state == JobState::Downloading {
                if found {
                    assert(self@.jobs[at].state == JobState::Downloading
                        && self@.jobs[i as int].state == JobState::Downloading);
                    return false;
                }
                found = true;
                proof {
                    at = i as int;
                }
            }
            i += 1;
        }
        true
    }
}

spec fn as_ints(ids: Seq<i64>) -> Seq<int> {
    ids.map_values(|i: i64| i as int)
}

fn do_ids_ascend(ids: &Vec<i64>, next: i64) -> (r: bool)
    ensures
        r == ids_ascend(as_ints(ids@), next as int),
{
    let ghost a = as_ints(ids@);
    if next < 1 {
        return false;
    }
    let mut i: usize = 0;
    while i < ids.len()
        invariant
            i <= ids.len(),
            1 <= next,
            a == as_ints(ids@),
            forall|k: int| 0 <= k < i ==> 1 <= #[trigger] a[k] < next,
            forall|j: int, k: int| 0 <= j < k < i ==> #[trigger] a[j] < #[trigger] a[k],
        decreases ids.len() - i,
    {
        assert(a[i as int] == ids@[i as int]);
        if ids[i] < 1 || ids[i] >= next {
            return false;
        }
        if i > 0 {
            assert(a[i - 1] == ids@[i - 1]);
            if ids[i - 1] >= ids[i] {
                return false;
            }
        }
        i += 1;
    }
    true
}

/// Once a job has released the download slot, releasing it again changes nothing, whatever the
/// state is that it is released with.
pub proof fn release_is_idempotent(q: QueueView, id: int, state: JobState, other: JobState)
    requires
        state != JobState::Downloading || other == state,
    ensures
        q.released(id, state).released(id, other) == q.released(id, state),
{
    let once = q.released(id, state);
    let twice = once.released(id, other);
    assert(twice.jobs =~= once.jobs);
    assert(twice =~= once);
}

/// A job that got the download slot holds it: nobody can claim it then.
pub proof fn claimed_slot_is_held(q: QueueView, id: int)
    requires
        q.is_queued(id),
    ensures
        q.with_job(
            id,
            |j: JobView| JobView { state: JobState::Downloading, ..j },
        ).is_downloading(),
{
    let i = choose|i: int|
        0 <= i < q.jobs.len() && (#[trigger] q.jobs[i]).id == id && q.jobs[i].state
            == JobState::Queued;
    let r = q.with_job(id, |j: JobView| JobView { state: JobState::Downloading, ..j });
    assert(r.jobs[i].state == JobState::Downloading);
}

/// The first real name of a file stays.
pub proof fn yenc_name_latches(q: QueueView, file_id: int, name: Seq<char>, other: Seq<char>)
    requires
        name.len() > 0,
    ensures
        q.with_yenc_name(file_id, name).with_yenc_name(file_id, other) == q.with_yenc_name(
            file_id,
            name,
        ),
{
    let once = q.with_yenc_name(file_id, name);
    let twice = once.with_yenc_name(file_id, other);
    assert(twice.files =~= once.files);
    assert(twice =~= once);
}

/// A removed job leaves nothing behind: no job, no file and no segment of it.
pub proof fn deleted_job_leaves_nothing(q: QueueView, id: int)
    requires
        q.is_valid(),
    ensures
        ({
            let r = q.without(|j: JobView| j.id == id);
            &&& !r.has_job(id)
            &&& forall|i: int| 0 <= i < r.files.len() ==> (#[trigger] r.files[i]).job_id != id
            &&& forall|i: int|
                0 <= i < r.segments.len() ==> !q.is_of_job(#[trigger] r.segments[i], id)
        }),
{
    let gone = |j: JobView| j.id == id;
    let r = q.without(gone);
    let keep_job = |j: JobView| !gone(j);
    let keep_file = |f: FileView| !q.job_gone(f.job_id, gone);
    let keep_segment = |s: SegmentView| !q.file_gone(s.file_id, gone);
    let pj = order::filter_positions(q.jobs, keep_job);
    let pf = order::filter_positions(q.files, keep_file);
    let ps = order::filter_positions(q.segments, keep_segment);
    if r.has_job(id) {
        let k = choose|k: int| 0 <= k < job_ids(r.jobs).len() && job_ids(r.jobs)[k] == id;
        assert(q.jobs[pj[k]] == r.jobs[k]);
        assert(keep_job(r.jobs[k]));
    }
    assert forall|i: int| 0 <= i < q.files.len() && (#[trigger] q.files[i]).job_id == id implies q.job_gone(
        id,
        gone,
    ) by {
        assert(job_ids(q.jobs).contains(id));
        let k = choose|k: int| 0 <= k < job_ids(q.jobs).len() && job_ids(q.jobs)[k] == id;
        assert(q.jobs[k].id == id);
    }
    assert forall|i: int| 0 <= i < r.files.len() implies (#[trigger] r.files[i]).job_id != id by {
        assert(q.files[pf[i]] == r.files[i]);
        assert(keep_file(r.files[i]));
    }
    assert forall|i: int| 0 <= i < r.segments.len() implies !q.is_of_job(
        #[trigger] r.segments[i],
        id,
    ) by {
        assert(q.segments[ps[i]] == r.segments[i]);
        assert(keep_segment(r.segments[i]));
        if q.is_of_job(r.segments[i], id) {
            let k = choose|k: int|
                0 <= k < q.files.len() && (#[trigger] q.files[k]).id == r.segments[i].file_id
                    && q.files[k].job_id == id;
            assert(q.job_gone(q.files[k].job_id, gone));
            assert(q.file_gone(r.segments[i].file_id, gone));
        }
    }
}

/// A file without its ids.
pub open spec fn bare_file(f: FileView) -> FileView {
    FileView { id: 0, job_id: 0, ..f }
}

/// A segment without its ids.
pub open spec fn bare_segment(s: SegmentView) -> SegmentView {
    SegmentView { id: 0, file_id: 0, ..s }
}

/// A list of segments without their ids.
pub open spec fn bare_segments(s: Seq<SegmentView>) -> Seq<SegmentView> {
    s.map_values(|x: SegmentView| bare_segment(x))
}

impl QueueView {
    /// Whether two files differ in nothing but their ids and those of their segments, and every
    /// segment is still to be fetched, or is missing where the release says so.
    pub open spec fn is_copy(self, f: FileView, g: FileView) -> bool {
        &&& bare_file(f) == bare_file(g)
        &&& bare_segments(self.segments_of(f.id)) == bare_segments(self.segments_of(g.id))
        &&& forall|s: SegmentView| #[trigger]
            self.segments_in(f.id).contains(s) ==> s.state == if s.missing {
                SegmentState::Missing
            } else {
                SegmentState::Pending
            }
    }

    /// Whether the files of two jobs are copies of each other, one by one.
    pub open spec fn files_alike(self, job_id: int, other: int) -> bool {
        &&& self.files_of(job_id).len() == self.files_of(other).len()
        &&& forall|i: int|
            0 <= i < self.files_of(job_id).len() ==> self.is_copy(
                #[trigger] self.files_of(job_id)[i],
                self.files_of(other)[i],
            )
    }
}

spec fn rows_of(files: Seq<NzbFile>, base: int, job_id: int) -> Seq<FileView> {
    Seq::new(files.len(), |k: int| file_row(files[k], base + k, job_id, k))
}

spec fn bare_articles(f: NzbFile) -> Seq<SegmentView> {
    Seq::new(f.segments@.len(), |m: int| segment_row(f.segments@[m], 0, 0))
}

spec fn files_precede(segments: Seq<SegmentView>, next: int) -> bool {
    forall|i: int| 0 <= i < segments.len() ==> (#[trigger] segments[i]).file_id < next
}

proof fn lemma_file_added(q: QueueView, job_id: int, index: int, f: NzbFile, id: int)
    requires
        files_precede(q.segments, q.next_file),
    ensures
        ({
            let r = q.with_file(job_id, index, f);
            &&& files_precede(r.segments, r.next_file)
            &&& id < q.next_file ==> r.segments_in(id) == q.segments_in(id)
            &&& id == q.next_file ==> bare_segments(r.segments_in(id)) == bare_articles(f)
        }),
{
    let r = q.with_file(job_id, index, f);
    let new = Seq::new(
        f.segments@.len(),
        |k: int| segment_row(f.segments@[k], q.next_segment + k, q.next_file),
    );
    let keep = |s: SegmentView| s.file_id == id;
    assert(r.segments == q.segments + new);
    Seq::filter_distributes_over_add(q.segments, new, keep);
    order::filter_of_uniform(new, keep, id == q.next_file);
    if id >= q.next_file {
        order::filter_of_uniform(q.segments, keep, false);
    }
    if id < q.next_file {
        assert(q.segments.filter(keep) + Seq::empty() =~= q.segments.filter(keep));
    }
    if id == q.next_file {
        assert(r.segments_in(id) =~= new);
        assert(bare_segments(new) =~= bare_articles(f));
    }
}

proof fn lemma_release_added(q: QueueView, job_id: int, files: Seq<NzbFile>, id: int)
    requires
        files_precede(q.segments, q.next_file),
    ensures
        ({
            let r = q.with_release(job_id, files);
            &&& r.jobs == q.jobs
            &&& r.next_file == q.next_file + files.len()
            &&& r.files == q.files + rows_of(files, q.next_file, job_id)
            &&& files_precede(r.segments, r.next_file)
            &&& id < q.next_file ==> r.segments_in(id) == q.segments_in(id)
            &&& q.next_file <= id < r.next_file ==> bare_segments(r.segments_in(id))
                == bare_articles(files[id - q.next_file])
        }),
    decreases files.len(),
{
    if files.len() == 0 {
        assert(q.files + rows_of(files, q.next_file, job_id) =~= q.files);
    } else {
        let t = files.drop_last();
        let n = files.len() - 1;
        lemma_release_added(q, job_id, t, id);
        let m = q.with_release(job_id, t);
        lemma_file_added(m, job_id, n, files.last(), id);
        assert(q.files + rows_of(files, q.next_file, job_id) =~= (q.files + rows_of(
            t,
            q.next_file,
            job_id,
        )).push(file_row(files.last(), m.next_file, job_id, n)));
    }
}

/// A queue in which a job was added while its NZB file was being fetched, another one for a
/// release, and the first then given the same release.
pub open spec fn filled_and_added(
    q: QueueView,
    placeholder: (Seq<char>, Seq<char>),
    priority: i64,
    name: Seq<char>,
    output_dir: Seq<char>,
    files: Seq<NzbFile>,
) -> QueueView {
    let a = q.next_job;
    q.with_new_job(
        new_job(a, placeholder.0, placeholder.1, priority, JobState::Fetching, Seq::empty()),
    ).with_new_job(
        new_job(a + 1, name, output_dir, priority, JobState::Queued, files),
    ).with_release(a + 1, files).with_job(
        a,
        |j: JobView| populated(j, name, output_dir, files),
    ).with_release(a, files)
}

/// It makes no difference whether a job is added with its release or gets it later: but for
/// their ids, the jobs are the same, and so are their files and the segments of each. Their
/// totals are those of the release, where these fit. A segment is missing where the release says
/// so, and else to be fetched.
pub proof fn filled_job_equals_added(
    q: QueueView,
    placeholder: (Seq<char>, Seq<char>),
    priority: i64,
    name: Seq<char>,
    output_dir: Seq<char>,
    files: Seq<NzbFile>,
)
    requires
        q.is_valid(),
    ensures
        ({
            let a = q.next_job;
            let r = filled_and_added(q, placeholder, priority, name, output_dir, files);
            &&& r.jobs == q.jobs.push(
                new_job(a, name, output_dir, priority, JobState::Queued, files),
            ).push(new_job(a + 1, name, output_dir, priority, JobState::Queued, files))
            &&& nzb::segments_of(files) <= u32::MAX ==> r.jobs.last().total_segments
                == nzb::segments_of(files)
            &&& nzb::bytes_of(files) <= u64::MAX ==> r.jobs.last().total_bytes == nzb::bytes_of(
                files,
            )
            &&& r.files_of(a).len() == files.len()
            &&& r.files_alike(a, a + 1)
        }),
{
    let a = q.next_job;
    let late = q.next_file + files.len();
    let r = filled_and_added(q, placeholder, priority, name, output_dir, files);
    lemma_filled_and_added(q, placeholder, priority, name, output_dir, files, 0);
    assert forall|k: int| 0 <= k < files.len() implies {
        &&& bare_segments(r.segments_in(late + k)) == #[trigger] bare_articles(files[k])
        &&& bare_segments(r.segments_in(q.next_file + k)) == bare_articles(files[k])
    } by {
        lemma_filled_and_added(q, placeholder, priority, name, output_dir, files, k);
    }
    lemma_jobs_alike(r, q.files, files, late, a, q.next_file);
    nzb::totals_are_not_negative(files);
}

proof fn lemma_jobs_alike(
    q: QueueView,
    old_files: Seq<FileView>,
    files: Seq<NzbFile>,
    base: int,
    job_id: int,
    other_base: int,
)
    requires
        q.files == old_files + rows_of(files, other_base, job_id + 1) + rows_of(
            files,
            base,
            job_id,
        ),
        forall|i: int| 0 <= i < old_files.len() ==> (#[trigger] old_files[i]).job_id < job_id,
        forall|k: int|
            0 <= k < files.len() ==> {
                &&& bare_segments(q.segments_in(base + k)) == #[trigger] bare_articles(files[k])
                &&& bare_segments(q.segments_in(other_base + k)) == bare_articles(files[k])
            },
    ensures
        q.files_of(job_id).len() == files.len(),
        q.files_alike(job_id, job_id + 1),
{
    let early = rows_of(files, other_base, job_id + 1);
    let later = rows_of(files, base, job_id);
    let none = Seq::<FileView>::empty();
    assert(old_files + early + later =~= old_files + early + later + none);
    lemma_files_of_part(q, old_files, early, later, job_id + 1);
    lemma_files_of_part(q, old_files + early, later, none, job_id);
    order::sorting_keeps_length(later, by_file_index());
    lemma_files_alike(q, files, base, job_id, other_base, job_id + 1);
}

proof fn lemma_files_alike(
    q: QueueView,
    files: Seq<NzbFile>,
    base: int,
    job_id: int,
    other_base: int,
    other_job: int,
)
    requires
        q.files_of(job_id) == order::sorted(rows_of(files, base, job_id), by_file_index()),
        q.files_of(other_job) == order::sorted(
            rows_of(files, other_base, other_job),
            by_file_index(),
        ),
        forall|k: int|
            0 <= k < files.len() ==> {
                &&& bare_segments(q.segments_in(base + k)) == #[trigger] bare_articles(files[k])
                &&& bare_segments(q.segments_in(other_base + k)) == bare_articles(files[k])
            },
    ensures
        q.files_alike(job_id, other_job),
{
    order::sorting_keeps_length(rows_of(files, base, job_id), by_file_index());
    order::sorting_keeps_length(rows_of(files, other_base, other_job), by_file_index());
    assert forall|i: int| 0 <= i < files.len() implies q.is_copy(
        #[trigger] q.files_of(job_id)[i],
        q.files_of(other_job)[i],
    ) by {
        let k = lemma_rows_alike(files, base, job_id, other_base, other_job, i);
        assert(bare_segments(q.segments_in(base + k)) == bare_articles(files[k]));
        lemma_segments_alike(q, base + k, other_base + k, files[k]);
    }
}

proof fn lemma_filled_and_added(
    q: QueueView,
    placeholder: (Seq<char>, Seq<char>),
    priority: i64,
    name: Seq<char>,
    output_dir: Seq<char>,
    files: Seq<NzbFile>,
    k: int,
)
    requires
        q.is_valid(),
    ensures
        ({
            let a = q.next_job;
            let late = q.next_file + files.len();
            let r = filled_and_added(q, placeholder, priority, name, output_dir, files);
            &&& r.jobs == q.jobs.push(
                new_job(a, name, output_dir, priority, JobState::Queued, files),
            ).push(new_job(a + 1, name, output_dir, priority, JobState::Queued, files))
            &&& r.files == q.files + rows_of(files, q.next_file, a + 1) + rows_of(files, late, a)
            &&& forall|i: int| 0 <= i < q.files.len() ==> (#[trigger] q.files[i]).job_id < a
            &&& 0 <= k < files.len() ==> {
                &&& bare_segments(r.segments_in(q.next_file + k)) == bare_articles(files[k])
                &&& bare_segments(r.segments_in(late + k)) == bare_articles(files[k])
            }
        }),
{
    let a = q.next_job;
    let late = q.next_file + files.len();
    let created = q.with_new_job(
        new_job(a, placeholder.0, placeholder.1, priority, JobState::Fetching, Seq::empty()),
    );
    let both = created.with_new_job(
        new_job(a + 1, name, output_dir, priority, JobState::Queued, files),
    );
    let added = both.with_release(a + 1, files);
    let named = added.with_job(a, |j: JobView| populated(j, name, output_dir, files));
    assert forall|i: int| 0 <= i < q.segments.len() implies (#[trigger] q.segments[i]).file_id
        < q.next_file by {
        let k = choose|k: int|
            0 <= k < file_ids(q.files).len() && file_ids(q.files)[k] == q.segments[i].file_id;
        assert(file_ids(q.files)[k] < q.next_file);
    }
    lemma_release_added(both, a + 1, files, q.next_file + k);
    lemma_release_added(named, a, files, q.next_file + k);
    lemma_release_added(named, a, files, late + k);
    assert(named.segments_in(q.next_file + k) == added.segments_in(q.next_file + k));
    assert forall|i: int| 0 <= i < q.jobs.len() implies (#[trigger] q.jobs[i]).id < a by {
        assert(job_ids(q.jobs)[i] < a);
    }
    assert(named.jobs =~= q.jobs.push(
        new_job(a, name, output_dir, priority, JobState::Queued, files),
    ).push(new_job(a + 1, name, output_dir, priority, JobState::Queued, files)));
    assert forall|i: int| 0 <= i < q.files.len() implies (#[trigger] q.files[i]).job_id < a by {
        let k = choose|k: int|
            0 <= k < job_ids(q.jobs).len() && job_ids(q.jobs)[k] == q.files[i].job_id;
        assert(job_ids(q.jobs)[k] < a);
    }
}

proof fn lemma_rows_alike(
    files: Seq<NzbFile>,
    base: int,
    job_id: int,
    other_base: int,
    other_job: int,
    i: int,
) -> (k: int)
    requires
        0 <= i < files.len(),
    ensures
        0 <= k < files.len(),
        ({
            let f = order::sorted(rows_of(files, base, job_id), by_file_index())[i];
            let g = order::sorted(rows_of(files, other_base, other_job), by_file_index())[i];
            &&& f.id == base + k
            &&& g.id == other_base + k
            &&& bare_file(f) == bare_file(g)
        }),
{
    let by = by_file_index();
    let s = rows_of(files, base, job_id);
    let t = rows_of(files, other_base, other_job);
    let x = |f: FileView| FileView { id: f.id - base, job_id: 0, ..f };
    let y = |f: FileView| FileView { id: f.id - other_base, job_id: 0, ..f };
    order::sorting_keeps_to_ranks(s, x, by, by);
    order::sorting_keeps_to_ranks(t, y, by, by);
    assert(s.map_values(x) =~= t.map_values(y));
    order::sorting_keeps_length(s, by);
    order::sorting_keeps_length(t, by);
    order::sorting_keeps_members(s, by);
    let f = order::sorted(s, by)[i];
    let g = order::sorted(t, by)[i];
    assert(order::sorted(s, by).map_values(x)[i] == x(f));
    assert(order::sorted(t, by).map_values(y)[i] == y(g));
    assert(order::sorted(s, by).contains(f));
    choose|k: int| 0 <= k < s.len() && s[k] == f
}

proof fn lemma_segments_alike(q: QueueView, id: int, other: int, f: NzbFile)
    requires
        bare_segments(q.segments_in(id)) == bare_articles(f),
        bare_segments(q.segments_in(other)) == bare_articles(f),
    ensures
        bare_segments(q.segments_of(id)) == bare_segments(q.segments_of(other)),
        forall|s: SegmentView| #[trigger]
            q.segments_in(id).contains(s) ==> s.state == if s.missing {
                SegmentState::Missing
            } else {
                SegmentState::Pending
            },
{
    let bare = |s: SegmentView| bare_segment(s);
    order::sorting_keeps_to_ranks(q.segments_in(id), bare, by_number(), by_number());
    order::sorting_keeps_to_ranks(q.segments_in(other), bare, by_number(), by_number());
    assert forall|s: SegmentView| #[trigger] q.segments_in(id).contains(s) implies s.state
        == if s.missing {
        SegmentState::Missing
    } else {
        SegmentState::Pending
    } by {
        let m = choose|m: int| 0 <= m < q.segments_in(id).len() && q.segments_in(id)[m] == s;
        assert(bare_segments(q.segments_in(id))[m] == bare_segment(s));
        assert(bare_articles(f)[m] == bare_segment(s));
    }
}

proof fn lemma_files_of_part(
    q: QueueView,
    before: Seq<FileView>,
    rows: Seq<FileView>,
    after: Seq<FileView>,
    job_id: int,
)
    requires
        q.files == before + rows + after,
        forall|i: int| 0 <= i < before.len() ==> (#[trigger] before[i]).job_id != job_id,
        forall|i: int| 0 <= i < rows.len() ==> (#[trigger] rows[i]).job_id == job_id,
        forall|i: int| 0 <= i < after.len() ==> (#[trigger] after[i]).job_id != job_id,
    ensures
        q.files_of(job_id) == order::sorted(rows, by_file_index()),
{
    let keep = |f: FileView| f.job_id == job_id;
    Seq::filter_distributes_over_add(before + rows, after, keep);
    Seq::filter_distributes_over_add(before, rows, keep);
    order::filter_of_uniform(before, keep, false);
    order::filter_of_uniform(rows, keep, true);
    order::filter_of_uniform(after, keep, false);
    assert(q.files.filter(keep) =~= rows);
}

impl QueueView {
    /// The queue with the jobs of a list ranked by their places in it.
    pub open spec fn ranked(self, ids: Seq<int>) -> QueueView
        decreases ids.len(),
    {
        if ids.len() == 0 {
            self
        } else {
            self.ranked(ids.drop_last()).with_job(
                ids.last(),
                |j: JobView| JobView { priority: (ids.len() - 1) as i64, ..j },
            )
        }
    }

    /// Whether a list names every job once and nothing else.
    pub open spec fn names_all_jobs(self, ids: Seq<int>) -> bool {
        &&& ids.no_duplicates()
        &&& ids.len() == self.jobs.len()
        &&& forall|i: int| 0 <= i < self.jobs.len() ==> ids.contains((#[trigger] self.jobs[i]).id)
    }
}

proof fn lemma_ranked(q: QueueView, ids: Seq<int>, m: int)
    requires
        ids.no_duplicates(),
        ids.len() <= i64::MAX,
        0 <= m < q.jobs.len(),
    ensures
        ({
            let r = q.ranked(ids);
            &&& r.jobs.len() == q.jobs.len()
            &&& r.jobs[m] == (JobView { priority: r.jobs[m].priority, ..q.jobs[m] })
            &&& forall|k: int|
                0 <= k < ids.len() && #[trigger] ids[k] == q.jobs[m].id ==> r.jobs[m].priority == k
        }),
    decreases ids.len(),
{
    if ids.len() > 0 {
        let before = ids.drop_last();
        lemma_ranked(q, before, m);
        assert forall|k: int|
            0 <= k < ids.len() && #[trigger] ids[k] == q.jobs[m].id implies q.ranked(
            ids,
        ).jobs[m].priority == k by {
            if k < before.len() {
                assert(before[k] == ids[k]);
            }
        }
    }
}

proof fn lemma_full_ascent(s: Seq<int>, i: int)
    requires
        forall|a: int, b: int| 0 <= a < b < s.len() ==> #[trigger] s[a] < #[trigger] s[b],
        forall|a: int| 0 <= a < s.len() ==> 0 <= #[trigger] s[a] < s.len(),
        0 <= i < s.len(),
    ensures
        s[i] == i,
    decreases s.len(),
{
    let n = s.len() as int;
    lemma_ascent_grows(s, n - 1);
    if i < n - 1 {
        let t = s.drop_last();
        assert forall|a: int| 0 <= a < t.len() implies 0 <= #[trigger] t[a] < t.len() by {
            assert(s[a] < s[n - 1]);
        }
        lemma_full_ascent(t, i);
    }
}

proof fn lemma_ascent_grows(s: Seq<int>, i: int)
    requires
        forall|a: int, b: int| 0 <= a < b < s.len() ==> #[trigger] s[a] < #[trigger] s[b],
        forall|a: int| 0 <= a < s.len() ==> 0 <= #[trigger] s[a],
        0 <= i < s.len(),
    ensures
        s[i] >= i,
    decreases i,
{
    if i > 0 {
        lemma_ascent_grows(s, i - 1);
        assert(s[i - 1] < s[i]);
    }
}

proof fn lemma_jobs_in_order(q: QueueView)
    requires
        ids_ascend(job_ids(q.jobs), q.next_job),
    ensures
        q.jobs_in_order().len() == q.jobs.len(),
        forall|j: JobView| #[trigger] q.jobs_in_order().contains(j) <==> q.jobs.contains(j),
        forall|a: int, b: int|
            0 <= a < b < q.jobs.len() ==> (#[trigger] q.jobs_in_order()[a]).id != (
            #[trigger] q.jobs_in_order()[b]).id,
{
    let t = q.jobs_in_order();
    order::sorting_keeps_members(q.jobs, by_priority());
    order::sorting_keeps_length(q.jobs, by_priority());
    order::sorting_keeps_elements(q.jobs, by_priority());
    assert(q.jobs.no_duplicates()) by {
        assert forall|i: int, k: int| 0 <= i < k < q.jobs.len() implies q.jobs[i]
            != q.jobs[k] by {
            assert(job_ids(q.jobs)[i] < job_ids(q.jobs)[k]);
        }
    }
    q.jobs.lemma_multiset_has_no_duplicates();
    t.lemma_multiset_has_no_duplicates_conv();
    assert forall|a: int, b: int| 0 <= a < b < t.len() implies (#[trigger] t[a]).id != (
    #[trigger] t[b]).id by {
        assert(t.contains(t[a]) && t.contains(t[b]));
        let i = choose|i: int| 0 <= i < q.jobs.len() && q.jobs[i] == t[a];
        let k = choose|k: int| 0 <= k < q.jobs.len() && q.jobs[k] == t[b];
        assert(job_ids(q.jobs)[i] == t[a].id && job_ids(q.jobs)[k] == t[b].id);
        assert(t[a] != t[b]);
        assert(i < k ==> job_ids(q.jobs)[i] < job_ids(q.jobs)[k]);
        assert(k < i ==> job_ids(q.jobs)[k] < job_ids(q.jobs)[i]);
    }
}

/// The id of the newest job is no less than the number of jobs.
pub proof fn ids_outnumber_jobs(q: QueueView)
    requires
        q.is_valid(),
    ensures
        q.jobs.len() > 0 ==> q.jobs.len() <= q.jobs.last().id,
{
    let n = q.jobs.len() as int;
    let below = job_ids(q.jobs).map_values(|i: int| i - 1);
    if n > 0 {
        assert forall|a: int, b: int| 0 <= a < b < n implies #[trigger] below[a]
            < #[trigger] below[b] by {
            assert(job_ids(q.jobs)[a] < job_ids(q.jobs)[b]);
        }
        assert forall|a: int| 0 <= a < n implies 0 <= #[trigger] below[a] by {
            assert(job_ids(q.jobs)[a] >= 1);
        }
        lemma_ascent_grows(below, n - 1);
    }
}

/// The list of the jobs in their order names every job once.
pub proof fn order_names_all_jobs(q: QueueView)
    requires
        q.is_valid(),
    ensures
        q.names_all_jobs(job_ids(q.jobs_in_order())),
{
    let t = q.jobs_in_order();
    let ids = job_ids(t);
    lemma_jobs_in_order(q);
    assert forall|i: int| 0 <= i < q.jobs.len() implies ids.contains(
        (#[trigger] q.jobs[i]).id,
    ) by {
        assert(t.contains(q.jobs[i]));
        let k = choose|k: int| 0 <= k < t.len() && t[k] == q.jobs[i];
        assert(ids[k] == q.jobs[i].id);
    }
    assert forall|a: int, b: int| 0 <= a < b < ids.len() implies ids[a] != ids[b] by {
        assert(t[a].id != t[b].id);
    }
}

/// Jobs that are ranked by a list which names every one come in the order of that list, and
/// nothing but their priorities changes.
pub proof fn ranked_jobs_come_in_order(q: QueueView, ids: Seq<int>)
    requires
        q.is_valid(),
        q.names_all_jobs(ids),
        ids.len() <= i64::MAX,
    ensures
        job_ids(q.ranked(ids).jobs_in_order()) == ids,
        q.ranked(ids).jobs.len() == q.jobs.len(),
        forall|m: int|
            0 <= m < q.jobs.len() ==> #[trigger] q.ranked(ids).jobs[m] == (JobView {
                priority: q.ranked(ids).jobs[m].priority,
                ..q.jobs[m]
            }),
{
    let r = q.ranked(ids);
    let n = q.jobs.len() as int;
    assert forall|m: int| 0 <= m < n implies {
        &&& #[trigger] r.jobs[m] == (JobView { priority: r.jobs[m].priority, ..q.jobs[m] })
        &&& 0 <= r.jobs[m].priority < n
        &&& ids[r.jobs[m].priority as int] == r.jobs[m].id
    } by {
        lemma_ranked(q, ids, m);
        assert(ids.contains(q.jobs[m].id));
        let k = choose|k: int| 0 <= k < ids.len() && ids[k] == q.jobs[m].id;
        assert(r.jobs[m].priority == k);
    }
    if n > 0 {
        lemma_ranked(q, ids, 0);
    }
    lemma_ranked_rest(q, ids);
    assert(job_ids(r.jobs) =~= job_ids(q.jobs));
    lemma_jobs_in_order(r);
    let t = r.jobs_in_order();
    order::sorting_puts_in_order(r.jobs, by_priority());
    let ranks = t.map_values(|j: JobView| j.priority as int);
    assert forall|a: int| 0 <= a < n implies 0 <= #[trigger] ranks[a] < n && ids[ranks[a]]
        == t[a].id by {
        assert(t.contains(t[a]));
        let m = choose|m: int| 0 <= m < r.jobs.len() && r.jobs[m] == t[a];
        assert(r.jobs[m] == t[a]);
    }
    assert forall|a: int, b: int| 0 <= a < b < n implies #[trigger] ranks[a]
        < #[trigger] ranks[b] by {
        assert(!by_priority()(t[b], t[a]));
        assert(t[a].id != t[b].id);
        assert(ids[ranks[a]] == t[a].id && ids[ranks[b]] == t[b].id);
    }
    assert forall|a: int| 0 <= a < n implies job_ids(t)[a] == ids[a] by {
        lemma_full_ascent(ranks, a);
        assert(ids[ranks[a]] == t[a].id);
    }
    assert(job_ids(t) =~= ids);
}

proof fn lemma_ranked_rest(q: QueueView, ids: Seq<int>)
    ensures
        q.ranked(ids) == (QueueView { jobs: q.ranked(ids).jobs, ..q }),
        q.ranked(ids).jobs.len() == q.jobs.len(),
    decreases ids.len(),
{
    if ids.len() > 0 {
        lemma_ranked_rest(q, ids.drop_last());
    }
}

/// Whether `s` is among the segments under one of the files of `work`.
pub open spec fn in_work(work: Seq<(FileView, Seq<SegmentView>)>, s: SegmentView) -> bool {
    exists|i: int| 0 <= i < work.len() && (#[trigger] work[i]).1.contains(s)
}

proof fn lemma_rows_are_pending(
    files: Seq<FileView>,
    segments: Seq<SegmentView>,
    f: FileView,
    s: SegmentView,
)
    ensures
        pending_rows(files, segments).contains((f, s)) <==> files.contains(f) && segments.contains(
            s,
        ) && s.file_id == f.id && is_pending(s),
    decreases files.len(),
{
    let rows = pending_rows(files, segments);
    if files.len() == 0 {
        assert(!rows.contains((f, s)));
    } else {
        let last = files.last();
        let keep = |x: SegmentView| x.file_id == last.id && is_pending(x);
        let mine = segments.filter(keep);
        let pair = |x: SegmentView| (last, x);
        let before = pending_rows(files.drop_last(), segments);
        lemma_rows_are_pending(files.drop_last(), segments, f, s);
        assert(rows == before + mine.map_values(pair));
        if rows.contains((f, s)) {
            let k = choose|k: int| 0 <= k < rows.len() && rows[k] == (f, s);
            if k < before.len() {
                assert(before[k] == (f, s));
                let m = choose|m: int|
                    0 <= m < files.drop_last().len() && files.drop_last()[m] == f;
                assert(files[m] == f);
            } else {
                assert(mine.map_values(pair)[k - before.len()] == (f, s));
                assert(mine[k - before.len()] == s);
                let p = order::filter_positions(segments, keep);
                assert(segments[p[k - before.len()]] == s);
                assert(keep(s));
                assert(files[files.len() - 1] == f);
            }
        }
        if files.contains(f) && segments.contains(s) && s.file_id == f.id && is_pending(s) {
            let m = choose|m: int| 0 <= m < files.len() && files[m] == f;
            if m < files.len() - 1 {
                assert(files.drop_last()[m] == f);
                let k = choose|k: int| 0 <= k < before.len() && before[k] == (f, s);
                assert(rows[k] == (f, s));
            } else {
                let n = choose|n: int| 0 <= n < segments.len() && segments[n] == s;
                segments.lemma_filter_contains(keep, n);
                let k = choose|k: int| 0 <= k < mine.len() && mine[k] == s;
                assert(mine.map_values(pair)[k] == (f, s));
                assert(rows[before.len() + k] == (f, s));
            }
        }
    }
}

proof fn lemma_runs_hold_rows(rows: Seq<(FileView, SegmentView)>, s: SegmentView)
    ensures
        in_work(runs(rows), s) <==> exists|i: int| 0 <= i < rows.len() && (#[trigger] rows[i]).1 == s,
    decreases rows.len(),
{
    if rows.len() > 0 {
        let before = runs(rows.drop_last());
        let all = runs(rows);
        let (f, x) = rows.last();
        lemma_runs_hold_rows(rows.drop_last(), s);
        if exists|i: int| 0 <= i < rows.len() && (#[trigger] rows[i]).1 == s {
            let i = choose|i: int| 0 <= i < rows.len() && (#[trigger] rows[i]).1 == s;
            if i < rows.len() - 1 {
                assert(rows.drop_last()[i].1 == s);
                let k = choose|k: int| 0 <= k < before.len() && (#[trigger] before[k]).1.contains(s);
                let m = choose|m: int| 0 <= m < before[k].1.len() && before[k].1[m] == s;
                assert(all[k].1[m] == s);
                assert(all[k].1.contains(s));
            } else {
                let last = all[all.len() - 1].1;
                assert(last[last.len() - 1] == s);
                assert(all[all.len() - 1].1.contains(s));
            }
        }
        if in_work(all, s) {
            let k = choose|k: int| 0 <= k < all.len() && (#[trigger] all[k]).1.contains(s);
            let m = choose|m: int| 0 <= m < all[k].1.len() && all[k].1[m] == s;
            if s != x {
                if k < before.len() {
                    assert(before[k].1[m] == s);
                    assert(before[k].1.contains(s));
                }
                let i = choose|i: int|
                    0 <= i < rows.drop_last().len() && (#[trigger] rows.drop_last()[i]).1 == s;
                assert(rows[i].1 == s);
            } else {
                assert(rows[rows.len() - 1].1 == s);
            }
        }
    }
}

/// What is left to fetch of a job is exactly its segments that are pending and not missing:
/// a segment that is done is never fetched again, and none that is pending is left out.
pub proof fn pending_work_is_exact(q: QueueView, job_id: int, s: SegmentView)
    ensures
        in_work(q.pending(job_id), s) <==> q.segments.contains(s) && is_pending(s) && q.is_of_job(
            s,
            job_id,
        ),
{
    let mine = |f: FileView| f.job_id == job_id;
    let files = q.files.filter(mine);
    let rows = pending_rows(files, q.segments);
    let all = order::sorted(rows, by_place());
    lemma_runs_hold_rows(all, s);
    order::sorting_keeps_members(rows, by_place());
    let p = order::filter_positions(q.files, mine);
    if in_work(q.pending(job_id), s) {
        let i = choose|i: int| 0 <= i < all.len() && (#[trigger] all[i]).1 == s;
        let f = all[i].0;
        assert(all.contains((f, s)));
        lemma_rows_are_pending(files, q.segments, f, s);
        let m = choose|m: int| 0 <= m < files.len() && files[m] == f;
        assert(q.files[p[m]] == f);
        assert(mine(f));
    }
    if q.segments.contains(s) && is_pending(s) && q.is_of_job(s, job_id) {
        let i = choose|i: int|
            0 <= i < q.files.len() && (#[trigger] q.files[i]).id == s.file_id && q.files[i].job_id
                == job_id;
        q.files.lemma_filter_contains(mine, i);
        lemma_rows_are_pending(files, q.segments, q.files[i], s);
        assert(all.contains((q.files[i], s)));
        let k = choose|k: int| 0 <= k < all.len() && all[k] == (q.files[i], s);
        assert(all[k].1 == s);
    }
}

/// The words under which the states of jobs are stored; any other word, such as `paused`, means
/// a queued job.
pub proof fn states_of_jobs_have_their_words(s: Seq<char>)
    ensures
        JobState::meant(s) == JobState::Fetching <==> s == "fetching"@,
        JobState::meant(s) == JobState::Downloading <==> s == "downloading"@,
        JobState::meant(s) == JobState::Complete <==> s == "complete"@,
        JobState::meant(s) == JobState::Failed <==> s == "failed"@,
        JobState::Queued.word() == "queued"@,
{
    job_state_words_round_trip(JobState::Fetching);
    job_state_words_round_trip(JobState::Downloading);
    job_state_words_round_trip(JobState::Complete);
    job_state_words_round_trip(JobState::Failed);
}

/// The words under which the states of segments are stored; any other word means a pending
/// segment.
pub proof fn states_of_segments_have_their_words(s: Seq<char>)
    ensures
        SegmentState::meant(s) == SegmentState::Done <==> s == "done"@,
        SegmentState::meant(s) == SegmentState::Missing <==> s == "missing"@,
        SegmentState::meant(s) == SegmentState::CrcMismatch <==> s == "crc_mismatch"@,
        SegmentState::meant(s) == SegmentState::Failed <==> s == "failed"@,
        SegmentState::Pending.word() == "pending"@,
{
    segment_state_words_round_trip(SegmentState::Done);
    segment_state_words_round_trip(SegmentState::Missing);
    segment_state_words_round_trip(SegmentState::CrcMismatch);
    segment_state_words_round_trip(SegmentState::Failed);
}

/// A change of a job changes the jobs with its id, and nothing else of the queue.
pub proof fn other_jobs_stay(q: QueueView, id: int, change: spec_fn(JobView) -> JobView, i: int)
    requires
        0 <= i < q.jobs.len(),
    ensures
        ({
            let r = q.with_job(id, change);
            &&& r.jobs.len() == q.jobs.len()
            &&& q.jobs[i].id == id ==> r.jobs[i] == change(q.jobs[i])
            &&& q.jobs[i].id != id ==> r.jobs[i] == q.jobs[i]
            &&& r.files == q.files && r.segments == q.segments
            &&& r.next_job == q.next_job && r.next_file == q.next_file && r.next_segment
                == q.next_segment
        }),
{
}

/// A job gives up the download only if it has it, and no other job is changed by that.
pub proof fn only_downloads_are_released(q: QueueView, id: int, state: JobState, i: int)
    requires
        0 <= i < q.jobs.len(),
    ensures
        ({
            let r = q.released(id, state).jobs[i];
            &&& q.jobs[i].id == id && q.jobs[i].state == JobState::Downloading ==> r == (JobView {
                state,
                ..q.jobs[i]
            })
            &&& q.jobs[i].id != id || q.jobs[i].state != JobState::Downloading ==> r == q.jobs[i]
        }),
        q.released(id, state).files == q.files,
        q.released(id, state).segments == q.segments,
{
}

/// After a restart a job that was downloading waits again; all others are as they were.
pub proof fn downloads_wait_again(q: QueueView, i: int)
    requires
        0 <= i < q.jobs.len(),
    ensures
        q.requeued().jobs.len() == q.jobs.len(),
        q.jobs[i].state == JobState::Downloading ==> q.requeued().jobs[i] == (JobView {
            state: JobState::Queued,
            ..q.jobs[i]
        }),
        q.jobs[i].state != JobState::Downloading ==> q.requeued().jobs[i] == q.jobs[i],
        !q.requeued().is_downloading(),
        q.requeued().files == q.files && q.requeued().segments == q.segments,
{
    let r = q.requeued();
    assert forall|k: int| 0 <= k < r.jobs.len() implies (#[trigger] r.jobs[k]).state
        != JobState::Downloading by {
        assert(q.jobs[k] == q.jobs[k]);
    }
}

/// One more job counts as interrupted if it downloads, or if it waits and is listed as paused.
pub proof fn interruptions_are_counted(q: QueueView, job: JobView, paused: Seq<i64>)
    ensures
        (QueueView { jobs: q.jobs.push(job), ..q }).interruptions(paused) == q.interruptions(paused)
            + (if job.state == JobState::Downloading || (job.state == JobState::Queued && exists|
            i: int,
        |
            0 <= i < paused.len() && #[trigger] paused[i] == job.id) {
            1nat
        } else {
            0
        }),
        (QueueView { jobs: Seq::empty(), ..q }).interruptions(paused) == 0,
{
    let keep = |j: JobView| was_interrupted(j, paused);
    order::filter_of_push(q.jobs, job, keep);
    order::filter_of_uniform(Seq::<JobView>::empty(), keep, true);
}

/// A job that downloads holds the slot against every other job, and against itself not; while no
/// job downloads nobody holds it.
pub proof fn downloads_hold_the_slot(q: QueueView, i: int, id: int)
    requires
        q.is_valid(),
        0 <= i < q.jobs.len(),
    ensures
        q.jobs[i].state == JobState::Downloading ==> q.is_downloading() && (q.taken_by_other(id)
            <==> id != q.jobs[i].id),
        (forall|k: int| 0 <= k < q.jobs.len() ==> (#[trigger] q.jobs[k]).state
            != JobState::Downloading) ==> !q.is_downloading() && !q.taken_by_other(id),
        q.is_queued(q.jobs[i].id) <==> q.jobs[i].state == JobState::Queued,
        q.has_job(q.jobs[i].id),
{
    let ids = job_ids(q.jobs);
    assert(ids[i] == q.jobs[i].id);
    if q.jobs[i].state == JobState::Downloading && q.taken_by_other(id) {
        let k = choose|k: int|
            0 <= k < q.jobs.len() && (#[trigger] q.jobs[k]).state == JobState::Downloading
                && q.jobs[k].id != id;
        if k < i {
            assert(q.jobs[k].state != JobState::Downloading || q.jobs[i].state
                != JobState::Downloading);
        } else if i < k {
            assert(q.jobs[i].state != JobState::Downloading || q.jobs[k].state
                != JobState::Downloading);
        }
    }
    if q.is_queued(q.jobs[i].id) {
        let k = choose|k: int|
            0 <= k < q.jobs.len() && (#[trigger] q.jobs[k]).id == q.jobs[i].id && q.jobs[k].state
                == JobState::Queued;
        assert(ids[k] == q.jobs[k].id);
        if k < i {
            assert(ids[k] < ids[i]);
        } else if i < k {
            assert(ids[i] < ids[k]);
        }
    }
}

/// What is taken out of a queue is the jobs that are meant, the files of these jobs and the
/// segments of these files; all else stays.
pub proof fn removal_takes_what_belongs(
    q: QueueView,
    gone: spec_fn(JobView) -> bool,
    j: JobView,
    f: FileView,
    s: SegmentView,
)
    ensures
        q.without(gone).jobs.contains(j) <==> q.jobs.contains(j) && !gone(j),
        q.without(gone).files.contains(f) <==> q.files.contains(f) && !exists|i: int|
            0 <= i < q.jobs.len() && (#[trigger] q.jobs[i]).id == f.job_id && gone(q.jobs[i]),
        q.without(gone).segments.contains(s) <==> q.segments.contains(s) && !exists|i: int, k: int|
            0 <= i < q.jobs.len() && 0 <= k < q.files.len() && (#[trigger] q.files[k]).id
                == s.file_id && (#[trigger] q.jobs[i]).id == q.files[k].job_id && gone(q.jobs[i]),
        q.without(gone).next_job == q.next_job,
        q.without(gone).next_file == q.next_file,
        q.without(gone).next_segment == q.next_segment,
{
    lemma_filter_members(q.jobs, |x: JobView| !gone(x), j);
    lemma_filter_members(q.files, |x: FileView| !q.job_gone(x.job_id, gone), f);
    lemma_filter_members(q.segments, |x: SegmentView| !q.file_gone(x.file_id, gone), s);
    if q.file_gone(s.file_id, gone) {
        let k = choose|k: int|
            0 <= k < q.files.len() && (#[trigger] q.files[k]).id == s.file_id && q.job_gone(
                q.files[k].job_id,
                gone,
            );
        let i = choose|i: int|
            0 <= i < q.jobs.len() && (#[trigger] q.jobs[i]).id == q.files[k].job_id && gone(
                q.jobs[i],
            );
        assert(q.files[k].id == s.file_id && q.jobs[i].id == q.files[k].job_id);
    }
    if exists|i: int, k: int|
        0 <= i < q.jobs.len() && 0 <= k < q.files.len() && (#[trigger] q.files[k]).id == s.file_id
            && (#[trigger] q.jobs[i]).id == q.files[k].job_id && gone(q.jobs[i]) {
        let (i, k) = choose|i: int, k: int|
            0 <= i < q.jobs.len() && 0 <= k < q.files.len() && (#[trigger] q.files[k]).id
                == s.file_id && (#[trigger] q.jobs[i]).id == q.files[k].job_id && gone(q.jobs[i]);
        assert(q.job_gone(q.files[k].job_id, gone));
        assert(q.file_gone(s.file_id, gone));
    }
}

proof fn lemma_filter_members<V>(s: Seq<V>, keep: spec_fn(V) -> bool, x: V)
    ensures
        s.filter(keep).contains(x) <==> s.contains(x) && keep(x),
{
    if s.filter(keep).contains(x) {
        s.lemma_filter_contains_rev(keep, x);
        let i = choose|i: int| 0 <= i < s.filter(keep).len() && s.filter(keep)[i] == x;
        s.lemma_filter_pred(keep, i);
    }
    if s.contains(x) && keep(x) {
        let i = choose|i: int| 0 <= i < s.len() && s[i] == x;
        s.lemma_filter_contains(keep, i);
    }
}

/// A verdict on a segment changes the state of the segments of that number in that file, and
/// nothing else; later verdicts win.
pub proof fn later_states_win(
    q: QueueView,
    updates: Seq<(i64, u32, SegmentState)>,
    file_id: i64,
    number: u32,
    state: SegmentState,
    i: int,
)
    requires
        0 <= i < q.segments.len(),
    ensures
        ({
            let before = q.with_states(updates);
            let after = q.with_states(updates.push((file_id, number, state)));
            let s = before.segments[i];
            &&& before.segments.len() == q.segments.len() && after.segments.len()
                == q.segments.len()
            &&& s == (SegmentView { state: s.state, ..q.segments[i] })
            &&& q.segments[i].file_id == file_id && q.segments[i].number == number
                ==> after.segments[i] == (SegmentView { state, ..q.segments[i] })
            &&& q.segments[i].file_id != file_id || q.segments[i].number != number
                ==> after.segments[i] == s
            &&& after.jobs == q.jobs && after.files == q.files
        }),
        q.with_states(Seq::empty()) == q,
{
    let all = updates.push((file_id, number, state));
    assert(all.drop_last() =~= updates);
    lemma_states_rest(q, updates, i);
}

proof fn lemma_states_rest(q: QueueView, updates: Seq<(i64, u32, SegmentState)>, i: int)
    requires
        0 <= i < q.segments.len(),
    ensures
        ({
            let r = q.with_states(updates);
            &&& r.segments.len() == q.segments.len()
            &&& r.segments[i] == (SegmentView { state: r.segments[i].state, ..q.segments[i] })
            &&& r.jobs == q.jobs && r.files == q.files
        }),
    decreases updates.len(),
{
    if updates.len() > 0 {
        lemma_states_rest(q, updates.drop_last(), i);
    }
}

/// The states of all the segments that are picked change, and nothing else.
pub proof fn only_picked_segments_change(
    q: QueueView,
    which: spec_fn(SegmentView) -> bool,
    state: SegmentState,
    i: int,
)
    requires
        0 <= i < q.segments.len(),
    ensures
        ({
            let r = q.with_segments(which, state);
            &&& r.segments.len() == q.segments.len()
            &&& which(q.segments[i]) ==> r.segments[i] == (SegmentView { state, ..q.segments[i] })
            &&& !which(q.segments[i]) ==> r.segments[i] == q.segments[i]
            &&& r.jobs == q.jobs && r.files == q.files
        }),
{
}

/// The real name of a file is noted where it has none yet, and nowhere else.
pub proof fn real_names_are_noted_once(q: QueueView, file_id: int, name: Seq<char>, i: int)
    requires
        0 <= i < q.files.len(),
    ensures
        ({
            let r = q.with_yenc_name(file_id, name);
            let f = q.files[i];
            let bare = f.yenc_name is None || f.yenc_name->0.len() == 0;
            &&& r.files.len() == q.files.len()
            &&& f.id == file_id && bare ==> r.files[i] == (FileView { yenc_name: Some(name), ..f })
            &&& f.id != file_id || !bare ==> r.files[i] == f
            &&& r.jobs == q.jobs && r.segments == q.segments
        }),
{
}

/// A segment is pending if it was not fetched yet and has an article, and is settled for good if
/// it is done, missing or corrupt.
pub proof fn states_tell_what_is_left(s: SegmentView)
    ensures
        is_pending(s) ==> s.state == SegmentState::Pending && !s.missing,
        s.state == SegmentState::Pending && !s.missing ==> is_pending(s),
        is_completed(SegmentState::Done),
        is_completed(SegmentState::Missing),
        is_completed(SegmentState::CrcMismatch),
        !is_completed(SegmentState::Pending),
        !is_completed(SegmentState::Failed),
{
}

/// A file has work left if one of its segments is pending, and is settled if all of them are.
pub proof fn segments_tell_how_far_files_are(q: QueueView, file_id: int, i: int)
    requires
        0 <= i < q.segments.len(),
        q.segments[i].file_id == file_id,
    ensures
        q.segments[i].state == SegmentState::Pending && !q.segments[i].missing ==> q.has_pending(
            file_id,
        ),
        q.segments[i].state == SegmentState::Pending || q.segments[i].state == SegmentState::Failed
            ==> !q.all_completed(file_id),
        (forall|k: int|
            0 <= k < q.segments.len() && (#[trigger] q.segments[k]).file_id == file_id ==> (
            q.segments[k].state == SegmentState::Done || q.segments[k].state
                == SegmentState::Missing || q.segments[k].state == SegmentState::CrcMismatch))
            ==> q.all_completed(file_id) && !q.has_pending(file_id),
{
}

/// The job that is started next is the first in the list that waits.
pub proof fn first_waiting_job_is_next(jobs: Seq<JobView>, i: int)
    ensures
        0 <= i < jobs.len() && jobs[i].state == JobState::Queued && (forall|k: int|
            0 <= k < i ==> (#[trigger] jobs[k]).state != JobState::Queued) ==> first_queued(jobs)
            == Some(jobs[i]),
        (forall|k: int|
            0 <= k < jobs.len() ==> (#[trigger] jobs[k]).state != JobState::Queued)
            ==> first_queued(jobs) is None,
    decreases jobs.len(),
{
    if jobs.len() > 0 && jobs[0].state != JobState::Queued {
        let rest = jobs.skip(1);
        assert forall|k: int| 0 <= k < rest.len() implies #[trigger] rest[k] == jobs[k + 1] by {}
        first_waiting_job_is_next(rest, i - 1);
    }
}

/// Jobs are listed by rising priority, and those of equal priority in the order in which they
/// were added; none is left out and none is added.
pub proof fn jobs_are_listed_by_priority(q: QueueView, i: int, k: int, j: JobView)
    requires
        q.is_valid(),
    ensures
        ({
            let r = q.jobs_in_order();
            &&& r.len() == q.jobs.len()
            &&& r.contains(j) <==> q.jobs.contains(j)
            &&& 0 <= i < k < r.len() ==> r[i].priority < r[k].priority || (r[i].priority
                == r[k].priority && r[i].id < r[k].id)
        }),
{
    let f = by_priority();
    let r = q.jobs_in_order();
    order::sorting_keeps_members(q.jobs, f);
    order::sorting_puts_in_order(q.jobs, f);
    if 0 <= i < k < r.len() {
        assert(!f(r[k], r[i]));
        if r[i].priority == r[k].priority {
            let tie = |y: JobView| order::tied(r[i], y, f);
            order::sorting_is_stable(q.jobs, r[i], f);
            assert forall|a: int, b: int| 0 <= a < b < q.jobs.len() implies (
            #[trigger] q.jobs[a]).id < (#[trigger] q.jobs[b]).id by {
                assert(job_ids(q.jobs)[a] < job_ids(q.jobs)[b]);
            }
            lemma_stable(q.jobs, r, tie, i, k);
        }
    }
}

/// Two kept elements stand in the order in which they stood where what is kept of two sequences
/// is the same.
proof fn lemma_stable(
    s: Seq<JobView>,
    r: Seq<JobView>,
    keep: spec_fn(JobView) -> bool,
    i: int,
    k: int,
)
    requires
        s.filter(keep) == r.filter(keep),
        0 <= i < k < r.len(),
        keep(r[i]),
        keep(r[k]),
        forall|a: int, b: int| 0 <= a < b < s.len() ==> (#[trigger] s[a]).id < (#[trigger] s[b]).id,
    ensures
        r[i].id < r[k].id,
{
    let kept = s.filter(keep);
    let p = order::filter_positions(s, keep);
    let (a, b) = lemma_filter_places(r, keep, i, k);
    assert(p[a] < p[b]);
    assert(s[p[a]] == kept[a] && s[p[b]] == kept[b]);
}

proof fn lemma_filter_places<V>(s: Seq<V>, keep: spec_fn(V) -> bool, i: int, k: int) -> (p: (
    int,
    int,
))
    requires
        0 <= i < k < s.len(),
        keep(s[i]),
        keep(s[k]),
    ensures
        0 <= p.0 < p.1 < s.filter(keep).len(),
        s.filter(keep)[p.0] == s[i],
        s.filter(keep)[p.1] == s[k],
    decreases s.len(),
{
    reveal(Seq::filter);
    let t = s.drop_last();
    if k < s.len() - 1 {
        lemma_filter_places(t, keep, i, k)
    } else {
        t.lemma_filter_contains(keep, i);
        let a = choose|a: int| 0 <= a < t.filter(keep).len() && t.filter(keep)[a] == t[i];
        (a, t.filter(keep).len() as int)
    }
}

/// The files of a job are listed by their positions, and the segments of a file by their numbers;
/// each list holds what belongs to it and nothing else.
pub proof fn parts_are_listed_by_position(
    q: QueueView,
    id: int,
    i: int,
    k: int,
    f: FileView,
    s: SegmentView,
)
    ensures
        q.files_of(id).contains(f) <==> q.files.contains(f) && f.job_id == id,
        0 <= i < k < q.files_of(id).len() ==> q.files_of(id)[i].file_index
            <= q.files_of(id)[k].file_index,
        q.segments_of(id).contains(s) <==> q.segments.contains(s) && s.file_id == id,
        0 <= i < k < q.segments_of(id).len() ==> q.segments_of(id)[i].number <= q.segments_of(
            id,
        )[k].number,
{
    let mine = |x: FileView| x.job_id == id;
    let inside = |x: SegmentView| x.file_id == id;
    lemma_filter_members(q.files, mine, f);
    lemma_filter_members(q.segments, inside, s);
    order::sorting_keeps_members(q.files.filter(mine), by_file_index());
    order::sorting_puts_in_order(q.files.filter(mine), by_file_index());
    order::sorting_keeps_members(q.segments.filter(inside), by_number());
    order::sorting_puts_in_order(q.segments.filter(inside), by_number());
    let a = q.files_of(id);
    let b = q.segments_of(id);
    if 0 <= i < k < a.len() {
        assert(!by_file_index()(a[k], a[i]));
    }
    if 0 <= i < k < b.len() {
        assert(!by_number()(b[k], b[i]));
    }
}

/// A file is found by its id.
pub proof fn files_are_found_by_id(q: QueueView, i: int)
    requires
        q.is_valid(),
        0 <= i < q.files.len(),
    ensures
        q.file(q.files[i].id) == q.files[i],
        q.has_file(q.files[i].id),
{
    let ids = file_ids(q.files);
    let id = q.files[i].id;
    assert(ids[i] == id);
    let k = choose|k: int| 0 <= k < q.files.len() && (#[trigger] q.files[k]).id == id;
    assert(ids[k] == id);
    if k < i {
        assert(ids[k] < ids[i]);
    } else if i < k {
        assert(ids[i] < ids[k]);
    }
}

/// What a file of a release and its articles become in the queue: a segment whose article is not
/// there is missing from the start, and every other one is pending.
pub proof fn releases_become_rows(f: NzbFile, s: NzbSegment, id: int, owner: int, index: int)
    ensures
        ({
            let r = file_row(f, id, owner, index);
            &&& r.id == id && r.job_id == owner
            &&& r.filename == f.filename@ && r.subject == f.subject@ && r.poster == f.poster@
            &&& r.date == f.date && r.segment_count == f.segment_count
            &&& r.yenc_name is None
            &&& 0 <= index <= u32::MAX ==> r.file_index == index
        }),
        ({
            let r = segment_row(s, id, owner);
            &&& r.id == id && r.file_id == owner
            &&& r.number == s.number && r.message_id == s.message_id@ && r.bytes == s.bytes
            &&& r.missing == s.missing
            &&& s.missing ==> r.state == SegmentState::Missing
            &&& !s.missing ==> r.state == SegmentState::Pending
        }),
{
}

/// A new job has what it is given, the counts of its release, and nothing done.
pub proof fn new_jobs_start_at_nothing(
    id: int,
    name: Seq<char>,
    output_dir: Seq<char>,
    priority: i64,
    state: JobState,
    files: Seq<NzbFile>,
)
    ensures
        ({
            let j = new_job(id, name, output_dir, priority, state, files);
            &&& j.id == id && j.name == name && j.output_dir == output_dir
            &&& j.priority == priority && j.state == state
            &&& files.len() <= u32::MAX ==> j.file_count == files.len()
            &&& 0 <= nzb::segments_of(files) <= u32::MAX ==> j.total_segments == nzb::segments_of(
                files,
            )
            &&& 0 <= nzb::bytes_of(files) <= u64::MAX ==> j.total_bytes == nzb::bytes_of(files)
            &&& j.files_done == 0 && j.segments_done == 0 && j.downloaded_bytes == 0
            &&& j.error is None && j.archive_password is None
        }),
{
}

/// A job that waited for its release gets the name, the directory and the counts of it, and waits
/// for the download; the rest of it stays.
pub proof fn waiting_jobs_are_filled(
    j: JobView,
    name: Seq<char>,
    output_dir: Seq<char>,
    files: Seq<NzbFile>,
)
    ensures
        ({
            let r = populated(j, name, output_dir, files);
            &&& r.id == j.id && r.priority == j.priority
            &&& r.name == name && r.output_dir == output_dir && r.state == JobState::Queued
            &&& files.len() <= u32::MAX ==> r.file_count == files.len()
            &&& 0 <= nzb::segments_of(files) <= u32::MAX ==> r.total_segments == nzb::segments_of(
                files,
            )
            &&& 0 <= nzb::bytes_of(files) <= u64::MAX ==> r.total_bytes == nzb::bytes_of(files)
            &&& r.files_done == j.files_done && r.segments_done == j.segments_done
            &&& r.downloaded_bytes == j.downloaded_bytes
            &&& r.error == j.error && r.archive_password == j.archive_password
        }),
{
}

/// A job is added behind the others, with an id that is not given again.
pub proof fn jobs_are_added_behind(q: QueueView, job: JobView)
    ensures
        q.with_new_job(job).jobs == q.jobs.push(job),
        q.with_new_job(job).next_job == q.next_job + 1,
        q.with_new_job(job).files == q.files,
        q.with_new_job(job).segments == q.segments,
{
}

/// The files of a release are added behind the others, in their order, with ids and positions that
/// count up; what was in the queue stays.
pub proof fn releases_are_added_file_by_file(
    q: QueueView,
    job_id: int,
    files: Seq<NzbFile>,
    k: int,
    i: int,
)
    requires
        0 <= k < files.len(),
    ensures
        ({
            let r = q.with_release(job_id, files);
            &&& r.files.len() == q.files.len() + files.len()
            &&& r.files[q.files.len() + k] == file_row(files[k], q.next_file + k, job_id, k)
            &&& 0 <= i < q.files.len() ==> r.files[i] == q.files[i]
            &&& 0 <= i < q.segments.len() ==> r.segments[i] == q.segments[i]
            &&& r.segments.len() == q.segments.len() + nzb::articles_of(files)
            &&& r.next_file == q.next_file + files.len()
            &&& r.next_segment == q.next_segment + nzb::articles_of(files)
            &&& r.jobs == q.jobs
        }),
    decreases files.len(),
{
    lemma_release_rows(q, job_id, files, k, i);
}

proof fn lemma_release_rows(q: QueueView, job_id: int, files: Seq<NzbFile>, k: int, i: int)
    ensures
        ({
            let r = q.with_release(job_id, files);
            &&& r.files.len() == q.files.len() + files.len()
            &&& 0 <= k < files.len() ==> r.files[q.files.len() + k] == file_row(
                files[k],
                q.next_file + k,
                job_id,
                k,
            )
            &&& 0 <= i < q.files.len() ==> r.files[i] == q.files[i]
            &&& 0 <= i < q.segments.len() ==> r.segments[i] == q.segments[i]
            &&& r.segments.len() == q.segments.len() + nzb::articles_of(files)
            &&& r.next_file == q.next_file + files.len()
            &&& r.next_segment == q.next_segment + nzb::articles_of(files)
            &&& r.jobs == q.jobs
        }),
    decreases files.len(),
{
    if files.len() > 0 {
        lemma_release_rows(q, job_id, files.drop_last(), k, i);
    }
}

/// Each article of a file becomes a segment of it, behind the segments before and in its order.
pub proof fn articles_become_segments(
    q: QueueView,
    job_id: int,
    files: Seq<NzbFile>,
    f: NzbFile,
    k: int,
)
    requires
        0 <= k < f.segments@.len(),
    ensures
        ({
            let before = q.with_release(job_id, files);
            let r = q.with_release(job_id, files.push(f));
            &&& r.segments.len() == before.segments.len() + f.segments@.len()
            &&& r.segments[before.segments.len() + k] == segment_row(
                f.segments@[k],
                before.next_segment + k,
                before.next_file,
            )
        }),
{
    assert(files.push(f).drop_last() =~= files);
}

/// The sizes of segments add up.
pub proof fn sizes_of_segments_add_up(s: Seq<SegmentView>, x: SegmentView)
    ensures
        sum_bytes(Seq::empty()) == 0,
        sum_bytes(s.push(x)) == sum_bytes(s) + x.bytes,
{
    lemma_sum_bytes_push(s, x);
}

/// One more segment adds to the counts of the job that it belongs to, and of no other: one to the
/// settled ones if it is done, missing or corrupt, and its size if it is done.
pub proof fn segments_count_for_their_job(q: QueueView, j: JobView, s: SegmentView)
    requires
        q.segments.len() < u32::MAX,
        sum_bytes(q.segments) + s.bytes <= u64::MAX,
    ensures
        ({
            let before = q.counted(j);
            let after = (QueueView { segments: q.segments.push(s), ..q }).counted(j);
            let mine = exists|i: int|
                0 <= i < q.files.len() && (#[trigger] q.files[i]).id == s.file_id
                    && q.files[i].job_id == j.id;
            &&& after.segments_done == before.segments_done + (if mine && (s.state
                == SegmentState::Done || s.state == SegmentState::Missing || s.state
                == SegmentState::CrcMismatch) {
                1int
            } else {
                0
            })
            &&& after.downloaded_bytes == before.downloaded_bytes + (if mine && s.state
                == SegmentState::Done {
                s.bytes as int
            } else {
                0
            })
            &&& after == (JobView {
                segments_done: after.segments_done,
                files_done: after.files_done,
                downloaded_bytes: after.downloaded_bytes,
                ..j
            })
        }),
{
    let next = QueueView { segments: q.segments.push(s), ..q };
    let mine = |x: SegmentView| q.is_of_job(x, j.id);
    assert(mine =~= |x: SegmentView| next.is_of_job(x, j.id));
    let all = q.segments.filter(mine);
    let settled = |x: SegmentView| is_completed(x.state);
    let done = |x: SegmentView| x.state == SegmentState::Done;
    order::filter_of_push(q.segments, s, mine);
    order::filter_of_push(all, s, settled);
    order::filter_of_push(all, s, done);
    lemma_sum_bytes_push(all.filter(done), s);
    q.segments.lemma_filter_len(mine);
    all.lemma_filter_len(settled);
    kept_segments_are_no_larger(q.segments, mine);
    kept_segments_are_no_larger(all, done);
    assert(next.segments_of_job(j.id) == q.segments.push(s).filter(mine));
}

/// What is kept of a list of segments is not larger than all of it.
pub proof fn kept_segments_are_no_larger(s: Seq<SegmentView>, keep: spec_fn(SegmentView) -> bool)
    ensures
        0 <= sum_bytes(s.filter(keep)) <= sum_bytes(s),
    decreases s.len(),
{
    reveal(Seq::filter);
    if s.len() > 0 {
        kept_segments_are_no_larger(s.drop_last(), keep);
        lemma_sum_bytes_push(s.drop_last().filter(keep), s.last());
    }
}

/// One more file adds one to the settled files of its job if all its segments are settled.
pub proof fn files_count_for_their_job(q: QueueView, j: JobView, f: FileView)
    requires
        q.files.len() < u32::MAX,
    ensures
        ({
            let before = q.counted(j);
            let after = (QueueView { files: q.files.push(f), ..q }).counted(j);
            after.files_done == before.files_done + (if f.job_id == j.id && forall|i: int|
                0 <= i < q.segments.len() && (#[trigger] q.segments[i]).file_id == f.id ==> (
                q.segments[i].state == SegmentState::Done || q.segments[i].state
                    == SegmentState::Missing || q.segments[i].state == SegmentState::CrcMismatch) {
                1int
            } else {
                0
            })
        }),
{
    let next = QueueView { files: q.files.push(f), ..q };
    let whole = |x: FileView| x.job_id == j.id && q.all_completed(x.id);
    assert(whole =~= |x: FileView| x.job_id == j.id && next.all_completed(x.id));
    order::filter_of_push(q.files, f, whole);
    q.files.lemma_filter_len(whole);
}

/// One more segment of a file adds to what is told of the file: its size; one to those that were
/// tried, unless it is pending; one to the missing, if it has no article or none was found; and
/// its size to what was downloaded, if it is done. A segment of another file adds nothing.
pub proof fn segments_count_for_their_file(q: QueueView, f: FileView, s: SegmentView)
    requires
        q.segments.len() < u32::MAX,
        sum_bytes(q.segments) + s.bytes <= u64::MAX,
    ensures
        ({
            let before = q.stats_of(f);
            let after = (QueueView { segments: q.segments.push(s), ..q }).stats_of(f);
            let mine = s.file_id == f.id;
            &&& after.filename == f.filename && after.segment_count == f.segment_count
            &&& after.segments_done == before.segments_done + (if mine && s.state
                != SegmentState::Pending {
                1int
            } else {
                0
            })
            &&& after.segments_missing == before.segments_missing + (if mine && (s.missing
                || s.state == SegmentState::Missing) {
                1int
            } else {
                0
            })
            &&& after.total_bytes == before.total_bytes + (if mine {
                s.bytes as int
            } else {
                0
            })
            &&& after.downloaded_bytes == before.downloaded_bytes + (if mine && s.state
                == SegmentState::Done {
                s.bytes as int
            } else {
                0
            })
        }),
{
    let mine = |x: SegmentView| x.file_id == f.id;
    let all = q.segments.filter(mine);
    let tried = |x: SegmentView| x.state != SegmentState::Pending;
    let lost = |x: SegmentView| x.missing || x.state == SegmentState::Missing;
    let done = |x: SegmentView| x.state == SegmentState::Done;
    order::filter_of_push(q.segments, s, mine);
    order::filter_of_push(all, s, tried);
    order::filter_of_push(all, s, lost);
    order::filter_of_push(all, s, done);
    lemma_sum_bytes_push(all, s);
    lemma_sum_bytes_push(all.filter(done), s);
    q.segments.lemma_filter_len(mine);
    all.lemma_filter_len(tried);
    all.lemma_filter_len(lost);
    kept_segments_are_no_larger(q.segments, mine);
    kept_segments_are_no_larger(all, done);
}

/// There is room for a release exactly if the ids that come after it still fit.
pub proof fn room_is_for_ids(q: QueueView, job_id: int, files: Seq<NzbFile>)
    ensures
        q.has_room(files) <==> q.with_release(job_id, files).next_file <= i64::MAX
            && q.with_release(job_id, files).next_segment <= i64::MAX,
{
    lemma_release_rows(q, job_id, files, 0, 0);
}

/// An empty queue is a valid one, and its first job, file and segment get the id one.
pub proof fn fresh_queues_count_from_one()
    ensures
        QueueView::fresh().is_valid(),
        QueueView::fresh().jobs.len() == 0,
        QueueView::fresh().files.len() == 0,
        QueueView::fresh().segments.len() == 0,
        QueueView::fresh().next_job == 1,
        QueueView::fresh().next_file == 1,
        QueueView::fresh().next_segment == 1,
{
}

/// The work that is left comes file by file, in the order of their positions, and within a file by
/// the numbers of its segments; no two parts of the work in a row are of the same file.
pub proof fn pending_work_is_in_order(q: QueueView, job_id: int, i: int, k: int, a: int, b: int)
    requires
        q.is_valid(),
        0 <= i < q.pending(job_id).len(),
    ensures
        ({
            let w = q.pending(job_id);
            &&& w[i].1.len() > 0
            &&& w[i].0.job_id == job_id
            &&& 0 <= a < w[i].1.len() ==> w[i].1[a].file_id == w[i].0.id
            &&& 0 <= a < b < w[i].1.len() ==> w[i].1[a].number <= w[i].1[b].number
            &&& i < k < w.len() ==> w[i].0.file_index <= w[k].0.file_index
            &&& i + 1 < w.len() ==> w[i].0.id != w[i + 1].0.id
        }),
{
    let mine = |f: FileView| f.job_id == job_id;
    let files = q.files.filter(mine);
    let rows = pending_rows(files, q.segments);
    let all = order::sorted(rows, by_place());
    order::sorting_keeps_members(rows, by_place());
    order::sorting_puts_in_order(rows, by_place());
    assert forall|x: int| 0 <= x < all.len() implies (#[trigger] all[x]).1.file_id == all[x].0.id
        && all[x].0.job_id == job_id && q.files.contains(all[x].0) by {
        assert(all.contains(all[x]));
        assert(rows.contains((all[x].0, all[x].1)));
        lemma_rows_are_pending(files, q.segments, all[x].0, all[x].1);
        lemma_filter_members(q.files, mine, all[x].0);
    }
    assert forall|x: int, y: int| 0 <= x < all.len() && 0 <= y < all.len() && (
    #[trigger] all[x]).0.id == (#[trigger] all[y]).0.id implies all[x].0 == all[y].0 by {
        let m = choose|m: int| 0 <= m < q.files.len() && q.files[m] == all[x].0;
        let n = choose|n: int| 0 <= n < q.files.len() && q.files[n] == all[y].0;
        let ids = file_ids(q.files);
        assert(ids[m] == all[x].0.id && ids[n] == all[y].0.id);
        if m < n {
            assert(ids[m] < ids[n]);
        } else if n < m {
            assert(ids[n] < ids[m]);
        }
    }
    lemma_runs_in_order(all);
    let w = runs(all);
    assert(w[i].1.len() > 0 && all.contains((w[i].0, w[i].1[0])));
    if 0 <= a < w[i].1.len() {
        assert(all.contains((w[i].0, w[i].1[a])));
    }
}

/// Whether a list is in the order of places, and rows with files of the same id have the same file.
spec fn rows_in_order(rows: Seq<(FileView, SegmentView)>) -> bool {
    &&& order::in_order(rows, by_place())
    &&& forall|x: int, y: int|
        0 <= x < rows.len() && 0 <= y < rows.len() && (#[trigger] rows[x]).0.id == (
        #[trigger] rows[y]).0.id ==> rows[x].0 == rows[y].0
}

proof fn lemma_runs_in_order(rows: Seq<(FileView, SegmentView)>)
    requires
        rows_in_order(rows),
    ensures
        ({
            let w = runs(rows);
            &&& rows.len() > 0 ==> w.len() > 0 && w.last().0 == rows.last().0 && w.last().1.len()
                > 0 && w.last().1.last() == rows.last().1
            &&& forall|i: int, a: int|
                0 <= i < w.len() && 0 <= a < w[i].1.len() ==> rows.contains(
                    (w[i].0, #[trigger] w[i].1[a]),
                )
            &&& forall|i: int| 0 <= i < w.len() ==> (#[trigger] w[i]).1.len() > 0
            &&& forall|i: int, a: int, b: int|
                0 <= i < w.len() && 0 <= a < b < w[i].1.len() ==> (#[trigger] w[i].1[a]).number <= (
                #[trigger] w[i].1[b]).number
            &&& forall|i: int, k: int|
                0 <= i < k < w.len() ==> (#[trigger] w[i]).0.file_index <= (
                #[trigger] w[k]).0.file_index
            &&& forall|i: int| 0 <= i < w.len() - 1 ==> (#[trigger] w[i]).0.id != w[i + 1].0.id
        }),
    decreases rows.len(),
{
    if rows.len() > 0 {
        let before = rows.drop_last();
        assert forall|x: int| 0 <= x < before.len() implies #[trigger] before[x] == rows[x] by {}
        assert(rows_in_order(before));
        lemma_runs_in_order(before);
        let r = runs(before);
        let w = runs(rows);
        let (f, s) = rows.last();
        let n = rows.len() - 1;
        assert forall|i: int, a: int|
            0 <= i < w.len() && 0 <= a < w[i].1.len() implies rows.contains(
            (w[i].0, #[trigger] w[i].1[a]),
        ) by {
            if i < r.len() && a < r[i].1.len() {
                assert(before.contains((r[i].0, r[i].1[a])));
                let x = choose|x: int| 0 <= x < before.len() && before[x] == (r[i].0, r[i].1[a]);
                assert(rows[x] == (r[i].0, r[i].1[a]));
            } else {
                if i < r.len() {
                    assert(before.len() > 0);
                    assert(rows[n - 1].0 == r.last().0);
                    assert(rows[n - 1].0 == rows[n].0);
                }
                assert(rows[n] == (w[i].0, w[i].1[a]));
            }
        }
        if before.len() > 0 {
            assert(!by_place()(rows[n], rows[n - 1]));
            assert(r.last().0 == rows[n - 1].0 && r.last().1.last() == rows[n - 1].1);
            if r.last().0.id == f.id {
                assert(rows[n - 1].0 == rows[n].0);
            }
        }
    }
}

} // verus!
