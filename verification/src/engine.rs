//! The decisions of the download engine.
//!
//! Workers take segments from one shared queue, fetch them over pooled connections and put
//! back what failed on the way. Nothing here fetches, reads or writes: each function says
//! what to do next, given what happened.
use std::collections::{HashMap, HashSet, VecDeque};
use vstd::prelude::*;

use crate::error::concat;
use crate::nntp::{ServerConfig, ServerView};
use crate::order;
use crate::order::{sort, Precedence};
use crate::queue;
use crate::queue::{FileView, JobState, JobView, QueueError, QueueFile, QueueManager, QueueSegment, QueueView, SegmentState, SegmentView};
use crate::text;
use crate::text::{chars_of, contains, same_text, string_of, to_decimal, to_decimal_filled, to_lowercase, trim};
use crate::types;

verus! {

broadcast use vstd::std_specs::hash::group_hash_axioms;

/// How often a segment is fetched before it counts as failed.
pub const MAX_SEGMENT_ATTEMPTS: u32 = 4;

/// How many state changes are collected before they are stored.
pub const FLUSH_AT: usize = 200;

/// Counters of one run. They wrap around.
#[derive(Debug, Clone, Copy, PartialEq, Eq, Structural)]
pub struct PerfStats {
    /// Articles processed.
    pub articles: u64,
    /// Bytes received.
    pub bytes: u64,
    /// Microseconds spent waiting for work.
    pub queue_wait_us: u64,
    /// Microseconds spent waiting for a connection.
    pub acquire_us: u64,
    /// Microseconds spent fetching.
    pub fetch_us: u64,
    /// Microseconds spent decoding.
    pub decode_us: u64,
    /// Microseconds spent writing to disk.
    pub write_us: u64,
    /// Connections opened.
    pub conn_created: u64,
    /// Connections dropped.
    pub conn_dropped: u64,
    /// Articles by the time that fetching took.
    pub fetch_le_20ms: u64,
    pub fetch_le_100ms: u64,
    pub fetch_le_500ms: u64,
    pub fetch_le_2000ms: u64,
    pub fetch_gt_2000ms: u64,
}

/// All counters at zero.
pub open spec fn no_stats() -> PerfStats {
    PerfStats {
        articles: 0,
        bytes: 0,
        queue_wait_us: 0,
        acquire_us: 0,
        fetch_us: 0,
        decode_us: 0,
        write_us: 0,
        conn_created: 0,
        conn_dropped: 0,
        fetch_le_20ms: 0,
        fetch_le_100ms: 0,
        fetch_le_500ms: 0,
        fetch_le_2000ms: 0,
        fetch_gt_2000ms: 0,
    }
}

impl Default for PerfStats {
    fn default() -> (r: Self)
        ensures
            r == no_stats(),
    {
        PerfStats {
            articles: 0,
            bytes: 0,
            queue_wait_us: 0,
            acquire_us: 0,
            fetch_us: 0,
            decode_us: 0,
            write_us: 0,
            conn_created: 0,
            conn_dropped: 0,
            fetch_le_20ms: 0,
            fetch_le_100ms: 0,
            fetch_le_500ms: 0,
            fetch_le_2000ms: 0,
            fetch_gt_2000ms: 0,
        }
    }
}

impl PerfStats {
    /// Counts an article whose fetch took `us` microseconds.
    pub fn bucket(&mut self, us: u64)
        ensures
            *final(self) == if us <= 20_000 {
                PerfStats { fetch_le_20ms: old(self).fetch_le_20ms.wrapping_add(1), ..*old(self) }
            } else if us <= 100_000 {
                PerfStats { fetch_le_100ms: old(self).fetch_le_100ms.wrapping_add(1), ..*old(self) }
            } else if us <= 500_000 {
                PerfStats { fetch_le_500ms: old(self).fetch_le_500ms.wrapping_add(1), ..*old(self) }
            } else if us <= 2_000_000 {
                PerfStats {
                    fetch_le_2000ms: old(self).fetch_le_2000ms.wrapping_add(1),
                    ..*old(self)
                }
            } else {
                PerfStats {
                    fetch_gt_2000ms: old(self).fetch_gt_2000ms.wrapping_add(1),
                    ..*old(self)
                }
            },
    {
        if us <= 20_000 {
            self.fetch_le_20ms = self.fetch_le_20ms.wrapping_add(1);
        } else if us <= 100_000 {
            self.fetch_le_100ms = self.fetch_le_100ms.wrapping_add(1);
        } else if us <= 500_000 {
            self.fetch_le_500ms = self.fetch_le_500ms.wrapping_add(1);
        } else if us <= 2_000_000 {
            self.fetch_le_2000ms = self.fetch_le_2000ms.wrapping_add(1);
        } else {
            self.fetch_gt_2000ms = self.fetch_gt_2000ms.wrapping_add(1);
        }
    }

    /// Counts a processed article of `bytes` bytes.
    pub fn count_article(&mut self, bytes: u64)
        ensures
            *final(self) == (PerfStats {
                articles: old(self).articles.wrapping_add(1),
                bytes: old(self).bytes.wrapping_add(bytes),
                ..*old(self)
            }),
    {
        self.articles = self.articles.wrapping_add(1);
        self.bytes = self.bytes.wrapping_add(bytes);
    }
}

/// What a run reports while it goes on.
#[derive(Debug)]
pub enum ProgressEvent {
    /// A file is begun.
    FileStarted { filename: String, segments: u32 },
    /// A segment is settled.
    SegmentDone { filename: String, segment: u32, status: SegmentState, bytes: u64 },
    /// A file is assembled.
    FileCompleted { filename: String, path: String, missing: u32, crc_mismatches: u32 },
    /// The job is over.
    JobFinished { completed: usize, failed: usize },
    /// Something went wrong with one article.
    ArticleError { filename: String, segment: u32, error: String },
}

/// What a [`ProgressEvent`] says.
pub enum ProgressView {
    FileStarted { filename: Seq<char>, segments: u32 },
    SegmentDone { filename: Seq<char>, segment: u32, status: SegmentState, bytes: u64 },
    FileCompleted { filename: Seq<char>, path: Seq<char>, missing: u32, crc_mismatches: u32 },
    JobFinished { completed: usize, failed: usize },
    ArticleError { filename: Seq<char>, segment: u32, error: Seq<char> },
}

impl View for ProgressEvent {
    type V = ProgressView;

    open spec fn view(&self) -> ProgressView {
        match self {
            ProgressEvent::FileStarted { filename, segments } => ProgressView::FileStarted {
                filename: filename@,
                segments: *segments,
            },
            ProgressEvent::SegmentDone { filename, segment, status, bytes } =>
            ProgressView::SegmentDone {
                filename: filename@,
                segment: *segment,
                status: *status,
                bytes: *bytes,
            },
            ProgressEvent::FileCompleted { filename, path, missing, crc_mismatches } =>
            ProgressView::FileCompleted {
                filename: filename@,
                path: path@,
                missing: *missing,
                crc_mismatches: *crc_mismatches,
            },
            ProgressEvent::JobFinished { completed, failed } => ProgressView::JobFinished {
                completed: *completed,
                failed: *failed,
            },
            ProgressEvent::ArticleError { filename, segment, error } => ProgressView::ArticleError {
                filename: filename@,
                segment: *segment,
                error: error@,
            },
        }
    }
}

/// The segments of a job that are still to be fetched, in order, and how often each was
/// tried.
#[derive(Debug)]
pub struct WorkQueue {
    files: Vec<QueueFile>,
    items: VecDeque<(usize, QueueSegment)>,
    attempts: HashMap<i64, u32>,
}

/// What a [`WorkQueue`] holds.
#[verifier::ext_equal]
pub struct WorkView {
    /// The files that the segments belong to.
    pub files: Seq<FileView>,
    /// The segments, each with the index of its file.
    pub items: Seq<(int, SegmentView)>,
    /// How often each segment was tried, by its id.
    pub attempts: Map<i64, u32>,
}

/// What a list of segments with the indices of their files holds.
pub open spec fn item_views(items: Seq<(usize, QueueSegment)>) -> Seq<(int, SegmentView)> {
    items.map_values(|i: (usize, QueueSegment)| (i.0 as int, i.1@))
}

impl View for WorkQueue {
    type V = WorkView;

    closed spec fn view(&self) -> WorkView {
        WorkView {
            files: order::views(self.files@),
            items: item_views(self.items@),
            attempts: self.attempts@,
        }
    }
}

/// The segments of a list of files, one file after the other.
pub open spec fn flattened(pending: Seq<(FileView, Seq<SegmentView>)>) -> Seq<(int, SegmentView)>
    decreases pending.len(),
{
    if pending.len() == 0 {
        Seq::empty()
    } else {
        flattened(pending.drop_last()) + pending.last().1.map_values(
            |s: SegmentView| (pending.len() - 1, s),
        )
    }
}

/// What is reported when the files of a job are begun.
pub open spec fn started(pending: Seq<(FileView, Seq<SegmentView>)>) -> Seq<ProgressView> {
    pending.map_values(
        |p: (FileView, Seq<SegmentView>)|
            ProgressView::FileStarted {
                filename: p.0.filename,
                segments: queue::narrow(p.1.len() as int),
            },
    )
}

/// What to do with the next segment.
#[derive(Debug)]
pub enum Task {
    /// Fetch it.
    Fetch { file: usize, segment: QueueSegment },
    /// It was tried often enough: it failed.
    GiveUp { file: usize, segment: QueueSegment },
}

impl WorkView {
    /// Whether every segment has its file.
    pub open spec fn is_valid(self) -> bool {
        forall|i: int|
            0 <= i < self.items.len() ==> 0 <= (#[trigger] self.items[i]).0 < self.files.len()
    }

    /// How often a segment was tried.
    pub open spec fn tried(self, id: i64) -> u32 {
        if self.attempts.dom().contains(id) {
            self.attempts[id]
        } else {
            0
        }
    }

    /// What is held once the next segment is taken, and counted as tried once more.
    pub open spec fn taken(self) -> WorkView {
        let id = self.items[0].1.id as i64;
        WorkView {
            items: self.items.skip(1),
            attempts: self.attempts.insert(id, self.tried(id).saturating_add(1)),
            ..self
        }
    }

    /// Whether the next segment is fetched, and not given up.
    pub open spec fn will_fetch(self) -> bool {
        self.tried(self.items[0].1.id as i64) < MAX_SEGMENT_ATTEMPTS
    }

    /// What is held once a segment is put back in front.
    pub open spec fn returned(self, file: int, s: SegmentView) -> WorkView {
        WorkView { items: seq![(file, s)] + self.items, ..self }
    }

    /// How many more times the segments can be taken.
    pub open spec fn work_left(self) -> int {
        self.work_in(self.items)
    }

    /// How many more times the segments of `items` can be taken.
    pub open spec fn work_in(self, items: Seq<(int, SegmentView)>) -> int
        decreases items.len(),
    {
        if items.len() == 0 {
            0
        } else {
            self.tries_left(items[0].1.id as i64) + self.work_in(items.skip(1))
        }
    }

    /// How many more times a segment can be taken.
    pub open spec fn tries_left(self, id: i64) -> int {
        if self.tried(id) > MAX_SEGMENT_ATTEMPTS {
            1
        } else {
            MAX_SEGMENT_ATTEMPTS + 2 - self.tried(id)
        }
    }
}

proof fn lemma_work_shrinks(a: WorkView, b: WorkView, items: Seq<(int, SegmentView)>)
    requires
        forall|id: i64| #[trigger] b.tried(id) >= a.tried(id),
    ensures
        0 <= b.work_in(items) <= a.work_in(items),
    decreases items.len(),
{
    if items.len() > 0 {
        lemma_work_shrinks(a, b, items.skip(1));
        assert(b.tried(items[0].1.id as i64) >= a.tried(items[0].1.id as i64));
    }
}

/// The work comes to an end: each time a segment is taken, even if it is put back after a
/// fetch, less is left to do.
pub proof fn work_runs_out(w: WorkView)
    requires
        w.items.len() > 0,
    ensures
        0 <= w.taken().work_left() < w.work_left(),
        w.will_fetch() ==> 0 <= w.taken().returned(w.items[0].0, w.items[0].1).work_left()
            < w.work_left(),
{
    let t = w.taken();
    let id = w.items[0].1.id as i64;
    assert forall|k: i64| #[trigger] t.tried(k) >= w.tried(k) by {
        if k == id {
            assert(t.attempts[k] == w.tried(id).saturating_add(1));
        }
    }
    lemma_work_shrinks(w, t, w.items.skip(1));
    if w.will_fetch() {
        let r = t.returned(w.items[0].0, w.items[0].1);
        assert(r.items[0] == w.items[0]);
        assert(r.items.skip(1) =~= w.items.skip(1));
        assert forall|k: i64| #[trigger] r.tried(k) >= w.tried(k) by {
            assert(r.tried(k) == t.tried(k));
        }
        lemma_work_shrinks(w, r, w.items.skip(1));
        assert(r.tried(id) == w.tried(id) + 1);
    }
}

impl WorkQueue {
    /// The work of a job, of which nothing has been tried.
    pub fn new(pending: Vec<(QueueFile, Vec<QueueSegment>)>) -> (r: Self)
        ensures
            r@ == (WorkView {
                files: queue::run_views(pending@).map_values(
                    |p: (FileView, Seq<SegmentView>)| p.0,
                ),
                items: flattened(queue::run_views(pending@)),
                attempts: Map::empty(),
            }),
            r@.is_valid(),
    {
        let ghost all = queue::run_views(pending@);
        let ghost first = |p: (FileView, Seq<SegmentView>)| p.0;
        let mut files: Vec<QueueFile> = Vec::new();
        let mut items: VecDeque<(usize, QueueSegment)> = VecDeque::new();
        let n: usize = pending.len();
        let mut i: usize = 0;
        assert(all.take(0) == Seq::<(FileView, Seq<SegmentView>)>::empty());
        assert(item_views(items@) =~= flattened(all.take(0)));
        assert(order::views(files@) =~= all.take(0).map_values(first));
        while i < n
            invariant
                i <= n,
                n == pending.len(),
                all == queue::run_views(pending@),
                first == (|p: (FileView, Seq<SegmentView>)| p.0),
                order::views(files@) == all.take(i as int).map_values(first),
                item_views(items@) == flattened(all.take(i as int)),
                forall|k: int| 0 <= k < items@.len() ==> (#[trigger] items@[k]).0 < i,
            decreases n - i,
        {
            let ghost before = item_views(items@);
            let ghost had = order::views(files@);
            let ghost segs = order::views(pending@[i as int].1@);
            let ghost pair = |s: SegmentView| (i as int, s);
            files.push(pending[i].0.clone());
            let segments = &pending[i].1;
            let mut k: usize = 0;
            assert(before + segs.map_values(pair).take(0) =~= before);
            while k < segments.len()
                invariant
                    k <= segments.len(),
                    segs == order::views(segments@),
                    pair == (|s: SegmentView| (i as int, s)),
                    item_views(items@) == before + segs.map_values(pair).take(k as int),
                    forall|j: int| 0 <= j < items@.len() ==> (#[trigger] items@[j]).0 <= i,
                decreases segments.len() - k,
            {
                let ghost so_far = item_views(items@);
                let ghost was = items@;
                items.push_back((i, segments[k].clone()));
                proof {
                    assert(item_views(items@) =~= so_far.push((i as int, segs[k as int])));
                    assert(segs.map_values(pair).take(k + 1) =~= segs.map_values(pair).take(
                        k as int,
                    ).push(pair(segs[k as int])));
                    assert forall|j: int| 0 <= j < items@.len() implies (#[trigger] items@[j]).0
                        <= i by {
                        if j < was.len() {
                            assert(items@[j] == was[j]);
                        }
                    }
                }
                k += 1;
            }
            proof {
                let p = all.take(i + 1);
                assert(p.drop_last() == all.take(i as int));
                assert(p.last() == (pending@[i as int].0@, segs));
                assert(segs.map_values(pair).take(k as int) =~= segs.map_values(pair));
                assert((|s: SegmentView| (p.len() - 1, s)) =~= pair);
                assert(order::views(files@) =~= had.push(pending@[i as int].0@));
                assert(p =~= all.take(i as int).push(all[i as int]));
                assert(p.map_values(first) =~= all.take(i as int).map_values(first).push(
                    first(all[i as int]),
                ));
            }
            i += 1;
        }
        assert(all.take(n as int) == all);
        let r = WorkQueue { files, items, attempts: HashMap::new() };
        proof {
            assert(r@.attempts =~= Map::empty());
            assert forall|j: int| 0 <= j < r@.items.len() implies 0 <= (#[trigger] r@.items[j]).0
                < r@.files.len() by {
                assert(items@[j].0 < n);
            }
        }
        r
    }

    /// The file with index `i`.
    pub fn file(&self, i: usize) -> (r: &QueueFile)
        requires
            i < self@.files.len(),
        ensures
            r@ == self@.files[i as int],
    {
        &self.files[i]
    }

    /// The number of segments to fetch.
    pub fn len(&self) -> (r: usize)
        ensures
            r == self@.items.len(),
    {
        self.items.len()
    }

    /// Takes the next segment.
    pub fn next(&mut self) -> (r: Option<Task>)
        requires
            old(self)@.is_valid(),
        ensures
            final(self)@.is_valid(),
            match r {
                None => old(self)@.items.len() == 0 && final(self)@ == old(self)@,
                Some(t) => {
                    &&& old(self)@.items.len() > 0
                    &&& final(self)@ == old(self)@.taken()
                    &&& match t {
                        Task::Fetch { file, segment } => old(self)@.will_fetch() && (
                            file as int,
                            segment@,
                        ) == old(self)@.items[0],
                        Task::GiveUp { file, segment } => !old(self)@.will_fetch() && (
                            file as int,
                            segment@,
                        ) == old(self)@.items[0],
                    }
                },
            },
    {
        let ghost w = self@;
        match self.items.pop_front() {
            None => {
                assert(self@ =~= w);
                None
            },
            Some((file, segment)) => {
                let tried: u32 = match self.attempts.get(&segment.id) {
                    Some(n) => *n,
                    None => 0,
                };
                self.attempts.insert(segment.id, tried.saturating_add(1));
                proof {
                    assert(w.items[0] == (file as int, segment@));
                    assert(self@.items =~= w.items.skip(1));
                    assert(self@.attempts =~= w.taken().attempts);
                    assert(self@ =~= w.taken());
                    assert forall|i: int| 0 <= i < self@.items.len() implies 0 <= (
                    #[trigger] self@.items[i]).0 < self@.files.len() by {
                        assert(self@.items[i] == w.items[i + 1]);
                    }
                }
                if tried >= MAX_SEGMENT_ATTEMPTS {
                    Some(Task::GiveUp { file, segment })
                } else {
                    Some(Task::Fetch { file, segment })
                }
            },
        }
    }

    /// Puts a segment back, to be taken next.
    pub fn put_back(&mut self, file: usize, segment: QueueSegment)
        requires
            old(self)@.is_valid(),
            file < old(self)@.files.len(),
        ensures
            final(self)@.is_valid(),
            final(self)@ == old(self)@.returned(file as int, segment@),
    {
        let ghost w = self@;
        let ghost s = segment@;
        self.items.push_front((file, segment));
        proof {
            assert(self@.items =~= seq![(file as int, s)] + w.items);
            assert(self@ =~= w.returned(file as int, s));
            assert forall|i: int| 0 <= i < self@.items.len() implies 0 <= (
            #[trigger] self@.items[i]).0 < self@.files.len() by {
                if i > 0 {
                    assert(self@.items[i] == w.items[i - 1]);
                }
            }
        }
    }
}

/// What is reported when the files of a job are begun.
pub fn started_events(pending: &Vec<(QueueFile, Vec<QueueSegment>)>) -> (r: Vec<ProgressEvent>)
    ensures
        order::views(r@) == started(queue::run_views(pending@)),
{
    let mut r: Vec<ProgressEvent> = Vec::new();
    for i in 0..pending.len()
        invariant
            r.len() == i,
            forall|k: int|
                0 <= k < i ==> (#[trigger] r@[k])@ == started(queue::run_views(pending@))[k],
    {
        r.push(
            ProgressEvent::FileStarted {
                filename: pending[i].0.filename.clone(),
                segments: (pending[i].1.len() as u64) as u32,
            },
        );
    }
    assert(order::views(r@) =~= started(queue::run_views(pending@)));
    r
}

/// What is reported of a segment that was tried too often.
pub open spec fn given_up(file: FileView, s: SegmentView) -> Seq<ProgressView> {
    seq![
        ProgressView::SegmentDone {
            filename: file.filename,
            segment: s.number,
            status: SegmentState::Failed,
            bytes: 0,
        },
        ProgressView::ArticleError {
            filename: file.filename,
            segment: s.number,
            error: "fetch failed after "@ + text::decimal(MAX_SEGMENT_ATTEMPTS as nat)
                + " attempts (server unreachable?)"@,
        },
    ]
}

/// What is reported of a segment that was tried too often.
pub fn give_up_events(file: &QueueFile, segment: &QueueSegment) -> (r: Vec<ProgressEvent>)
    ensures
        order::views(r@) == given_up(file@, segment@),
{
    let mut error = concat("fetch failed after ", &to_decimal(MAX_SEGMENT_ATTEMPTS as u64));
    error.append(" attempts (server unreachable?)");
    let mut r: Vec<ProgressEvent> = Vec::new();
    r.push(
        ProgressEvent::SegmentDone {
            filename: file.filename.clone(),
            segment: segment.number,
            status: SegmentState::Failed,
            bytes: 0,
        },
    );
    r.push(
        ProgressEvent::ArticleError {
            filename: file.filename.clone(),
            segment: segment.number,
            error,
        },
    );
    assert(order::views(r@) =~= given_up(file@, segment@));
    r
}

/// A file name as an article gives it, without white space at its ends and with nothing in
/// it that separates directories.
pub open spec fn sanitized(name: Seq<char>) -> Seq<char> {
    text::trimmed(name).map_values(
        |c: char|
            if c == '/' || c == '\\' {
                '_'
            } else {
                c
            },
    )
}

/// A name that was made safe has no white space at its ends and nothing in it that separates
/// directories, and making it safe again changes nothing.
pub proof fn sanitized_names_are_settled(name: Seq<char>)
    ensures
        sanitized(sanitized(name)) == sanitized(name),
        text::trimmed(sanitized(name)) == sanitized(name),
        !sanitized(name).contains('/') && !sanitized(name).contains('\\'),
{
    let t = text::trimmed(name);
    let s = sanitized(name);
    text::trimmed_ends_are_visible(name);
    if s.len() > 0 {
        assert(s[0] == t[0] || s[0] == '_');
        assert(s.last() == t.last() || s.last() == '_');
    }
    assert(text::trimmed_start(s) == s);
    assert(sanitized(s) =~= s);
}

/// A file name as an article gives it, made safe for a directory entry.
pub fn sanitize_yenc_name(name: &str) -> (r: String)
    ensures
        r@ == sanitized(name@),
{
    let cs = chars_of(name);
    let t = trim(&cs);
    let mut out: Vec<char> = Vec::new();
    for i in 0..t.len()
        invariant
            t@ == text::trimmed(name@),
            out@ == sanitized(name@).take(i as int),
    {
        let c: char = t[i];
        if c == '/' || c == '\\' {
            out.push('_');
        } else {
            out.push(c);
        }
        assert(sanitized(name@).take(i + 1) =~= sanitized(name@).take(i as int).push(
            sanitized(name@)[i as int],
        ));
    }
    assert(sanitized(name@).take(t@.len() as int) =~= sanitized(name@));
    string_of(&out)
}

/// A sanitised name holds no separator of directories.
pub proof fn sanitized_name_has_no_separator(name: Seq<char>, i: int)
    requires
        0 <= i < sanitized(name).len(),
    ensures
        sanitized(name)[i] != '/',
        sanitized(name)[i] != '\\',
{
}

/// What became of an article.
#[derive(Debug)]
pub enum Fetched {
    /// It was decoded: whether the checksum is right, whether there is none, and the file
    /// name that it gives.
    Decoded { crc_ok: bool, crc_unknown: bool, name: String },
    /// It could not be decoded.
    Undecodable(String),
    /// No server has it.
    Missing,
}

/// What an article means for its segment.
#[derive(Debug)]
pub struct Settled {
    pub state: SegmentState,
    /// The announced size, where there was an article.
    pub bytes: u64,
    /// Whether the decoded data is to be kept.
    pub keep_data: bool,
    /// The real name of the file, where it is to be noted.
    pub real_name: Option<String>,
    pub events: Vec<ProgressEvent>,
}

/// The state of a segment, given what became of its article.
pub open spec fn settled_state(fetched: Fetched) -> SegmentState {
    match fetched {
        Fetched::Decoded { crc_ok, crc_unknown, name } => if crc_ok || crc_unknown {
            SegmentState::Done
        } else {
            SegmentState::CrcMismatch
        },
        Fetched::Undecodable(_) => SegmentState::Failed,
        Fetched::Missing => SegmentState::Missing,
    }
}

/// The number of bytes that a settled segment counts for.
pub open spec fn settled_bytes(fetched: Fetched, s: SegmentView) -> u64 {
    if fetched is Missing {
        0
    } else {
        s.bytes
    }
}

/// What is reported of a settled segment.
pub open spec fn settled_events(fetched: Fetched, file: FileView, s: SegmentView) -> Seq<
    ProgressView,
> {
    let end = ProgressView::SegmentDone {
        filename: file.filename,
        segment: s.number,
        status: settled_state(fetched),
        bytes: settled_bytes(fetched, s),
    };
    match fetched {
        Fetched::Undecodable(m) => seq![
            ProgressView::ArticleError {
                filename: file.filename,
                segment: s.number,
                error: m@,
            },
            end,
        ],
        _ => seq![end],
    }
}

/// The real name that an article gives its file, if it gives one that is not known yet.
pub open spec fn real_name(fetched: Fetched, file: FileView, latched: Set<i64>) -> Option<
    Seq<char>,
> {
    match fetched {
        Fetched::Decoded { crc_ok, crc_unknown, name } => {
            let n = sanitized(name@);
            if (crc_ok || crc_unknown) && n.len() > 0 && n != file.filename && file.yenc_name
                != Some(n) && !latched.contains(file.id as i64) {
                Some(n)
            } else {
                None
            }
        },
        _ => None,
    }
}

/// What one worker remembers: the files whose real name it has noted.
#[derive(Debug)]
pub struct Worker {
    latched: HashSet<i64>,
}

impl View for Worker {
    type V = Set<i64>;

    closed spec fn view(&self) -> Set<i64> {
        self.latched@
    }
}

impl Worker {
    /// A worker that has noted nothing.
    pub fn new() -> (r: Self)
        ensures
            r@ == Set::<i64>::empty(),
    {
        Worker { latched: HashSet::new() }
    }

    /// What an article means for its segment.
    pub fn settle(&mut self, file: &QueueFile, segment: &QueueSegment, fetched: &Fetched) -> (r:
        Settled)
        ensures
            r.state == settled_state(*fetched),
            r.bytes == settled_bytes(*fetched, segment@),
            r.keep_data == (settled_state(*fetched) == SegmentState::Done),
            types::text_of(r.real_name) == real_name(*fetched, file@, old(self)@),
            order::views(r.events@) == settled_events(*fetched, file@, segment@),
            final(self)@ == if real_name(*fetched, file@, old(self)@) is Some {
                old(self)@.insert(file.id)
            } else {
                old(self)@
            },
    {
        let mut events: Vec<ProgressEvent> = Vec::new();
        let mut noted: Option<String> = None;
        let (state, bytes) = match fetched {
            Fetched::Decoded { crc_ok, crc_unknown, name } => {
                if *crc_ok || *crc_unknown {
                    let shown = sanitize_yenc_name(name);
                    let known = match &file.yenc_name {
                        Some(n) => same_text(n, &shown),
                        None => false,
                    };
                    if chars_of(&shown).len() > 0 && !same_text(&shown, &file.filename) && !known
                        && !self.latched.contains(&file.id) {
                        self.latched.insert(file.id);
                        noted = Some(shown);
                    }
                    (SegmentState::Done, segment.bytes)
                } else {
                    (SegmentState::CrcMismatch, segment.bytes)
                }
            },
            Fetched::Undecodable(m) => {
                events.push(
                    ProgressEvent::ArticleError {
                        filename: file.filename.clone(),
                        segment: segment.number,
                        error: m.clone(),
                    },
                );
                (SegmentState::Failed, segment.bytes)
            },
            Fetched::Missing => (SegmentState::Missing, 0),
        };
        events.push(
            ProgressEvent::SegmentDone {
                filename: file.filename.clone(),
                segment: segment.number,
                status: state,
                bytes,
            },
        );
        assert(order::views(events@) =~= settled_events(*fetched, file@, segment@));
        Settled {
            state,
            bytes,
            keep_data: state == SegmentState::Done,
            real_name: noted,
            events,
        }
    }
}

/// The directory for the parts of a file.
pub fn parts_dir_name(filename: &str) -> (r: String)
    ensures
        r@ == filename@ + ".parts"@,
{
    concat(filename, ".parts")
}

/// The name of the part with a segment's data.
pub fn part_name(number: u32) -> (r: String)
    ensures
        r@ == "seg"@ + text::zero_filled(text::decimal(number as nat), 6),
{
    concat("seg", &to_decimal_filled(number as u64, 6))
}

/// How one server answered a request for an article.
#[derive(Debug, Clone, Copy, PartialEq, Eq, Structural)]
pub enum ServerAnswer {
    /// No connection could be had.
    Unreachable,
    /// It sent the article.
    Article,
    /// It does not have the article.
    Missing,
    /// It says that it has the article, and does not send it.
    Present,
    /// The connection broke.
    Broken,
}

/// What to do with the connection to a server that answered.
#[derive(Debug, Clone, Copy, PartialEq, Eq, Structural)]
pub enum ConnectionFate {
    /// There is none.
    NoConnection,
    /// It can be used again.
    Reuse,
    /// It is dropped.
    Discard,
}

/// What the answers of all servers mean for an article.
#[derive(Debug, Clone, Copy, PartialEq, Eq, Structural)]
pub enum ArticleOutcome {
    /// It was sent.
    Found,
    /// No server has it.
    Missing,
    /// It is to be tried again later.
    Retry,
}

/// Whether a server answered, and does not give the article.
pub open spec fn says_missing(a: ServerAnswer) -> bool {
    a == ServerAnswer::Missing || a == ServerAnswer::Present
}

/// What the answers of the servers, in order, mean: the article, if one sent it; missing, if
/// every server says so; and else another try.
pub open spec fn article_outcome(answers: Seq<ServerAnswer>) -> ArticleOutcome {
    if answers.contains(ServerAnswer::Article) {
        ArticleOutcome::Found
    } else if answers.len() > 0 && (forall|i: int|
        0 <= i < answers.len() ==> says_missing(#[trigger] answers[i])) {
        ArticleOutcome::Missing
    } else {
        ArticleOutcome::Retry
    }
}

/// What to do with the connection that gave an answer.
pub open spec fn fate_of(a: ServerAnswer) -> ConnectionFate {
    match a {
        ServerAnswer::Unreachable => ConnectionFate::NoConnection,
        ServerAnswer::Broken => ConnectionFate::Discard,
        _ => ConnectionFate::Reuse,
    }
}

/// The answers to one request for an article.
#[derive(Debug)]
pub struct FetchLog {
    answers: Vec<ServerAnswer>,
}

impl View for FetchLog {
    type V = Seq<ServerAnswer>;

    closed spec fn view(&self) -> Seq<ServerAnswer> {
        self.answers@
    }
}

impl FetchLog {
    /// No answers.
    pub fn new() -> (r: Self)
        ensures
            r@ == Seq::<ServerAnswer>::empty(),
    {
        FetchLog { answers: Vec::new() }
    }

    /// Notes the answer of the next server. What to do with the connection is returned.
    pub fn note(&mut self, answer: ServerAnswer) -> (r: ConnectionFate)
        ensures
            final(self)@ == old(self)@.push(answer),
            r == fate_of(answer),
    {
        self.answers.push(answer);
        match answer {
            ServerAnswer::Unreachable => ConnectionFate::NoConnection,
            ServerAnswer::Broken => ConnectionFate::Discard,
            _ => ConnectionFate::Reuse,
        }
    }

    /// What the answers mean.
    pub fn outcome(&self) -> (r: ArticleOutcome)
        ensures
            r == article_outcome(self@),
    {
        let mut all_missing = self.answers.len() > 0;
        let mut i: usize = 0;
        while i < self.answers.len()
            invariant
                i <= self.answers.len(),
                forall|k: int| 0 <= k < i ==> #[trigger] self@[k] != ServerAnswer::Article,
                all_missing == (self@.len() > 0 && (forall|k: int|
                    0 <= k < i ==> says_missing(#[trigger] self@[k]))),
            decreases self.answers.len() - i,
        {
            let a = self.answers[i];
            assert(self@[i as int] == a);
            if a == ServerAnswer::Article {
                return ArticleOutcome::Found;
            }
            if a != ServerAnswer::Missing && a != ServerAnswer::Present {
                all_missing = false;
            }
            i += 1;
        }
        if all_missing {
            ArticleOutcome::Missing
        } else {
            ArticleOutcome::Retry
        }
    }
}

/// Whether an error message, in lower case, tells of a host name that cannot be resolved.
pub open spec fn tells_of_dns(low: Seq<char>) -> bool {
    text::has_infix(low, "lookup"@) || text::has_infix(low, "name or service not known"@)
        || text::has_infix(low, "resolve"@) || text::has_infix(low, "dns"@)
}

/// Whether an error message, in lower case, tells of a host name that cannot be resolved.
pub fn is_dns_message(low: &str) -> (r: bool)
    ensures
        r == tells_of_dns(low@),
{
    let cs = chars_of(low);
    contains(&cs, "lookup") || contains(&cs, "name or service not known") || contains(
        &cs,
        "resolve",
    ) || contains(&cs, "dns")
}

/// Whether a connection failed because the host name cannot be resolved.
pub open spec fn failed_for_dns(attempt: Result<(), String>) -> bool {
    attempt is Err && tells_of_dns(text::lowered(attempt->Err_0@))
}

/// The error to fail a job with before it starts, given how a connection to each server in
/// turn ended, up to the first that was made: the last error, if every connection failed
/// because a host name cannot be resolved, which will not go away by itself.
pub open spec fn precheck_error(attempts: Seq<Result<(), String>>) -> Option<Seq<char>> {
    if attempts.len() > 0 && (forall|i: int|
        0 <= i < attempts.len() ==> failed_for_dns(#[trigger] attempts[i])) {
        Some(attempts.last()->Err_0@)
    } else {
        None
    }
}

/// The error to fail a job with before it starts.
pub fn precheck_servers(attempts: &Vec<Result<(), String>>) -> (r: Option<String>)
    ensures
        types::text_of(r) == precheck_error(attempts@),
        r is Some <==> attempts@.len() > 0 && forall|i: int|
            0 <= i < attempts@.len() ==> (#[trigger] attempts@[i]) is Err && tells_of_dns(
                text::lowered(attempts@[i]->Err_0@),
            ),
{
    let mut last: Option<String> = None;
    let mut i: usize = 0;
    while i < attempts.len()
        invariant
            i <= attempts.len(),
            forall|k: int| 0 <= k < i ==> failed_for_dns(#[trigger] attempts@[k]),
            last is Some == (i > 0),
            i > 0 ==> last->0@ == attempts@[i - 1]->Err_0@,
        decreases attempts.len() - i,
    {
        match &attempts[i] {
            Ok(_) => {
                assert(!failed_for_dns(attempts@[i as int]));
                return None;
            },
            Err(m) => {
                if !is_dns_message(&to_lowercase(m)) {
                    assert(!failed_for_dns(attempts@[i as int]));
                    return None;
                }
                last = Some(m.clone());
            },
        }
        i += 1;
    }
    last
}

/// What a job is told that cannot reach any server.
pub fn unreachable_message(error: &str) -> (r: String)
    ensures
        r@ == "Cannot reach NNTP server — check the hostname in Settings: "@ + error@,
{
    concat("Cannot reach NNTP server — check the hostname in Settings: ", error)
}

/// What a run makes of a job: complete if no file failed.
pub open spec fn job_outcome(failed: nat, total: nat) -> (JobState, Option<Seq<char>>) {
    if failed == 0 {
        (JobState::Complete, None)
    } else {
        (
            JobState::Failed,
            Some(
                text::decimal(failed) + " of "@ + text::decimal(total)
                    + " files with missing/corrupt segments"@,
            ),
        )
    }
}

/// What a run makes of a job.
pub fn job_verdict(failed: usize, total: usize) -> (r: (JobState, Option<String>))
    ensures
        (r.0, types::text_of(r.1)) == job_outcome(failed as nat, total as nat),
{
    if failed == 0 {
        (JobState::Complete, None)
    } else {
        let mut m = concat(&to_decimal(failed as u64), " of ");
        m.append(&to_decimal(total as u64));
        m.append(" files with missing/corrupt segments");
        (JobState::Failed, Some(m))
    }
}

/// What to do for one position of a file.
#[derive(Debug, Clone, Copy, PartialEq, Eq, Structural)]
pub enum Slot {
    /// The part is there.
    Part,
    /// There is nothing for it.
    Missing,
    /// The article was corrupt.
    Corrupt,
}

/// The first segment with a number.
pub open spec fn numbered(segments: Seq<SegmentView>, n: int) -> Option<SegmentView>
    decreases segments.len(),
{
    if segments.len() == 0 {
        None
    } else if segments[0].number == n {
        Some(segments[0])
    } else {
        numbered(segments.skip(1), n)
    }
}

/// What there is for the position `n` of a file.
pub open spec fn slot(segments: Seq<SegmentView>, n: int) -> Slot {
    match numbered(segments, n) {
        Some(s) => if s.missing {
            Slot::Missing
        } else if s.state == SegmentState::Done {
            Slot::Part
        } else if s.state == SegmentState::CrcMismatch {
            Slot::Corrupt
        } else {
            Slot::Missing
        },
        None => Slot::Missing,
    }
}

/// What there is for the position `n` of a file.
pub fn slot_of(segments: &Vec<QueueSegment>, n: u32) -> (r: Slot)
    ensures
        r == slot(order::views(segments@), n as int),
{
    let ghost all = order::views(segments@);
    let mut i: usize = 0;
    assert(all.skip(0) == all);
    while i < segments.len()
        invariant
            i <= segments.len(),
            all == order::views(segments@),
            numbered(all, n as int) == numbered(all.skip(i as int), n as int),
        decreases segments.len() - i,
    {
        assert(all.skip(i as int)[0] == segments@[i as int]@);
        let s = &segments[i];
        if s.number == n {
            return if s.missing {
                Slot::Missing
            } else {
                match s.state {
                    SegmentState::Done => Slot::Part,
                    SegmentState::CrcMismatch => Slot::Corrupt,
                    _ => Slot::Missing,
                }
            };
        }
        assert(all.skip(i as int).skip(1) == all.skip(i + 1));
        i += 1;
    }
    Slot::Missing
}

/// The positions from 1 to `n` with a part, in order.
pub open spec fn parts_up_to(segments: Seq<SegmentView>, n: nat) -> Seq<u32>
    decreases n,
{
    if n == 0 {
        Seq::empty()
    } else if slot(segments, n as int) == Slot::Part {
        parts_up_to(segments, (n - 1) as nat).push(n as u32)
    } else {
        parts_up_to(segments, (n - 1) as nat)
    }
}

/// The number of positions from 1 to `n` for which there is `which`.
pub open spec fn slots_up_to(segments: Seq<SegmentView>, n: nat, which: Slot) -> nat
    decreases n,
{
    if n == 0 {
        0
    } else {
        slots_up_to(segments, (n - 1) as nat, which) + if slot(segments, n as int) == which {
            1nat
        } else {
            0nat
        }
    }
}

/// How to put a file together.
#[derive(Debug)]
pub struct AssemblyPlan {
    /// The positions whose parts make up the file, in order.
    pub parts: Vec<u32>,
    /// The number of positions without an article.
    pub missing: u32,
    /// The number of positions with a corrupt article.
    pub crc_mismatches: u32,
}

/// How to put a file of `segment_count` segments together.
pub fn plan_assembly(segments: &Vec<QueueSegment>, segment_count: u32) -> (r: AssemblyPlan)
    ensures
        r.parts@ == parts_up_to(order::views(segments@), segment_count as nat),
        r.missing == slots_up_to(
            order::views(segments@),
            segment_count as nat,
            Slot::Missing,
        ),
        r.crc_mismatches == slots_up_to(
            order::views(segments@),
            segment_count as nat,
            Slot::Corrupt,
        ),
        r.parts@.len() + r.missing + r.crc_mismatches == segment_count,
{
    let ghost all = order::views(segments@);
    let mut parts: Vec<u32> = Vec::new();
    let mut missing: u32 = 0;
    let mut crc_mismatches: u32 = 0;
    let mut n: u32 = 0;
    while n < segment_count
        invariant
            n <= segment_count,
            all == order::views(segments@),
            parts@ == parts_up_to(all, n as nat),
            missing == slots_up_to(all, n as nat, Slot::Missing),
            crc_mismatches == slots_up_to(all, n as nat, Slot::Corrupt),
            parts@.len() + missing + crc_mismatches == n,
        decreases segment_count - n,
    {
        n += 1;
        match slot_of(segments, n) {
            Slot::Part => parts.push(n),
            Slot::Missing => missing += 1,
            Slot::Corrupt => crc_mismatches += 1,
        }
    }
    AssemblyPlan { parts, missing, crc_mismatches }
}

/// The outcome of putting a file together.
#[derive(Debug, Clone, Copy, PartialEq, Eq, Structural)]
pub struct FileOutcome {
    pub missing: u32,
    pub crc_mismatches: u32,
}

impl FileOutcome {
    /// Whether the file has no holes.
    pub open spec fn is_whole(self) -> bool {
        self.missing == 0 && self.crc_mismatches == 0
    }

    /// Whether the file has no holes, so that it counts as completed and its parts can go.
    pub fn complete(&self) -> (r: bool)
        ensures
            r == self.is_whole(),
    {
        self.missing == 0 && self.crc_mismatches == 0
    }
}

impl AssemblyPlan {
    /// The outcome once the parts are read, of which `unreadable` could not be.
    pub fn outcome(&self, unreadable: u32) -> (r: FileOutcome)
        requires
            unreadable + self.missing <= u32::MAX,
        ensures
            r.missing == self.missing + unreadable,
            r.crc_mismatches == self.crc_mismatches,
    {
        FileOutcome { missing: self.missing + unreadable, crc_mismatches: self.crc_mismatches }
    }
}

/// A file is whole exactly if every one of its positions has a part and every part could be
/// read.
pub proof fn whole_files_have_every_part(segments: Seq<SegmentView>, n: nat)
    ensures
        parts_up_to(segments, n).len() + slots_up_to(segments, n, Slot::Missing) + slots_up_to(
            segments,
            n,
            Slot::Corrupt,
        ) == n,
        (slots_up_to(segments, n, Slot::Missing) == 0 && slots_up_to(segments, n, Slot::Corrupt)
            == 0) <==> (forall|k: int| 1 <= k <= n ==> #[trigger] slot(segments, k) == Slot::Part),
    decreases n,
{
    if n > 0 {
        whole_files_have_every_part(segments, (n - 1) as nat);
    }
}

/// The name under which a file is assembled: its real name, if it is known.
pub fn final_name(file: &QueueFile) -> (r: String)
    ensures
        r@ == match file@.yenc_name {
            Some(n) => n,
            None => file@.filename,
        },
{
    match &file.yenc_name {
        Some(n) => n.clone(),
        None => file.filename.clone(),
    }
}

/// Changes of segment states that are not stored yet.
#[derive(Debug)]
pub struct StateBuffer {
    updates: Vec<(i64, u32, SegmentState)>,
}

impl View for StateBuffer {
    type V = Seq<(i64, u32, SegmentState)>;

    closed spec fn view(&self) -> Seq<(i64, u32, SegmentState)> {
        self.updates@
    }
}

impl StateBuffer {
    /// No changes.
    pub fn new() -> (r: Self)
        ensures
            r@ == Seq::<(i64, u32, SegmentState)>::empty(),
    {
        StateBuffer { updates: Vec::new() }
    }

    /// Adds a change. Whether there are enough to store them at once is returned.
    pub fn push(&mut self, file_id: i64, number: u32, state: SegmentState) -> (r: bool)
        ensures
            final(self)@ == old(self)@.push((file_id, number, state)),
            r == (final(self)@.len() >= FLUSH_AT),
    {
        self.updates.push((file_id, number, state));
        self.updates.len() >= FLUSH_AT
    }

    /// Whether there is anything to store.
    pub fn is_empty(&self) -> (r: bool)
        ensures
            r == (self@.len() == 0),
    {
        self.updates.len() == 0
    }

    /// Takes all changes, in order, to store them.
    pub fn drain(&mut self) -> (r: Vec<(i64, u32, SegmentState)>)
        ensures
            r@ == old(self)@,
            final(self)@ == Seq::<(i64, u32, SegmentState)>::empty(),
    {
        let mut r: Vec<(i64, u32, SegmentState)> = Vec::new();
        std::mem::swap(&mut r, &mut self.updates);
        r
    }
}

/// Changes of segment states can be stored in batches: one batch after the other leaves the
/// same queue as all at once.
pub proof fn batches_compose(
    q: QueueView,
    a: Seq<(i64, u32, SegmentState)>,
    b: Seq<(i64, u32, SegmentState)>,
)
    ensures
        q.with_states(a).with_states(b) == q.with_states(a + b),
    decreases b.len(),
{
    if b.len() == 0 {
        assert(a + b =~= a);
    } else {
        batches_compose(q, a, b.drop_last());
        assert((a + b).drop_last() =~= a + b.drop_last());
        assert((a + b).last() == b.last());
    }
}

/// How many connections there are to each server, and in all.
#[derive(Debug)]
pub struct ConnectionPool {
    limits: Vec<u32>,
    idle: Vec<usize>,
    in_use: Vec<usize>,
    probing: usize,
    active: usize,
}

/// What a [`ConnectionPool`] holds.
#[verifier::ext_equal]
pub struct PoolView {
    /// How many connections to a server may be in use at once.
    pub limits: Seq<u32>,
    /// How many connections to a server wait to be used.
    pub idle: Seq<usize>,
    /// How many connections to a server are in use, or being opened.
    pub in_use: Seq<usize>,
    /// How many connections are taken out to be kept alive.
    pub probing: int,
    /// How many connections there are.
    pub active: int,
}

/// The sum of a list of counts.
pub open spec fn total(s: Seq<usize>) -> int
    decreases s.len(),
{
    if s.len() == 0 {
        0
    } else {
        total(s.drop_last()) + s.last()
    }
}

/// The sum of a list of limits, each counted as at least one.
pub open spec fn total_limit(s: Seq<u32>) -> int
    decreases s.len(),
{
    if s.len() == 0 {
        0
    } else {
        total_limit(s.drop_last()) + at_least_one(s.last())
    }
}

/// A limit, counted as at least one.
pub open spec fn at_least_one(n: u32) -> int {
    if n == 0 {
        1
    } else {
        n as int
    }
}

/// `s` with one more at `i`.
pub open spec fn raised(s: Seq<usize>, i: int) -> Seq<usize> {
    s.update(i, (s[i] + 1) as usize)
}

/// `s` with one less at `i`.
pub open spec fn lowered(s: Seq<usize>, i: int) -> Seq<usize> {
    s.update(i, (s[i] - 1) as usize)
}

/// The index of the first count that is not zero; their number if all are.
pub open spec fn first_some(s: Seq<usize>) -> nat
    decreases s.len(),
{
    if s.len() == 0 {
        0
    } else if s[0] > 0 {
        0
    } else {
        1 + first_some(s.skip(1))
    }
}

impl PoolView {
    /// What holds of every pool: each connection is counted once, as waiting, in use or taken
    /// out, and no server has more in use than its limit.
    pub open spec fn is_valid(self) -> bool {
        &&& self.idle.len() == self.limits.len()
        &&& self.in_use.len() == self.limits.len()
        &&& 0 <= self.probing
        &&& self.active == total(self.idle) + total(self.in_use) + self.probing
        &&& forall|i: int|
            0 <= i < self.in_use.len() ==> #[trigger] self.in_use[i] <= at_least_one(self.limits[i])
    }
}

proof fn lemma_total_update(s: Seq<usize>, i: int, v: usize)
    requires
        0 <= i < s.len(),
    ensures
        total(s.update(i, v)) == total(s) - s[i] + v,
    decreases s.len(),
{
    if i == s.len() - 1 {
        assert(s.update(i, v).drop_last() =~= s.drop_last());
    } else {
        lemma_total_update(s.drop_last(), i, v);
        assert(s.update(i, v).drop_last() =~= s.drop_last().update(i, v));
    }
}

proof fn lemma_total_bound(s: Seq<usize>)
    ensures
        0 <= total(s),
        forall|i: int| 0 <= i < s.len() ==> #[trigger] s[i] <= total(s),
    decreases s.len(),
{
    if s.len() > 0 {
        lemma_total_bound(s.drop_last());
        assert forall|i: int| 0 <= i < s.len() implies #[trigger] s[i] <= total(s) by {
            if i < s.len() - 1 {
                assert(s.drop_last()[i] == s[i]);
            }
        }
    }
}

/// A pool without connections.
pub open spec fn empty_pool(servers: Seq<ServerView>) -> PoolView {
    PoolView {
        limits: servers.map_values(|s: ServerView| s.max_connections),
        idle: Seq::new(servers.len(), |i: int| 0usize),
        in_use: Seq::new(servers.len(), |i: int| 0usize),
        probing: 0,
        active: 0,
    }
}

/// What to do to get a connection.
#[derive(Debug, Clone, Copy, PartialEq, Eq, Structural)]
pub enum Checkout {
    /// Take one that waits.
    Reuse,
    /// Open one.
    Open,
}

impl View for ConnectionPool {
    type V = PoolView;

    closed spec fn view(&self) -> PoolView {
        PoolView {
            limits: self.limits@,
            idle: self.idle@,
            in_use: self.in_use@,
            probing: self.probing as int,
            active: self.active as int,
        }
    }
}

impl ConnectionPool {
    /// A pool without connections.
    pub fn new(servers: &Vec<ServerConfig>) -> (r: Self)
        ensures
            r@.is_valid(),
            r@ == empty_pool(order::views(servers@)),
    {
        let mut limits: Vec<u32> = Vec::new();
        let mut idle: Vec<usize> = Vec::new();
        let mut in_use: Vec<usize> = Vec::new();
        for i in 0..servers.len()
            invariant
                limits.len() == i,
                idle.len() == i,
                in_use.len() == i,
                forall|k: int| 0 <= k < i ==> #[trigger] limits@[k] == servers@[k].max_connections,
                forall|k: int| 0 <= k < i ==> #[trigger] idle@[k] == 0,
                forall|k: int| 0 <= k < i ==> #[trigger] in_use@[k] == 0,
                total(idle@) == 0,
                total(in_use@) == 0,
        {
            let ghost a = idle@;
            let ghost b = in_use@;
            limits.push(servers[i].max_connections);
            idle.push(0);
            in_use.push(0);
            assert(idle@.drop_last() =~= a && in_use@.drop_last() =~= b);
        }
        let r = ConnectionPool { limits, idle, in_use, probing: 0, active: 0 };
        assert(r@ =~= empty_pool(order::views(servers@)));
        r
    }

    /// The number of connections.
    pub fn active_count(&self) -> (r: usize)
        ensures
            r == self@.active,
    {
        self.active
    }

    /// How many connections to a server may be in use at once.
    pub fn limit(&self, server: usize) -> (r: usize)
        requires
            server < self@.limits.len(),
        ensures
            r == at_least_one(self@.limits[server as int]),
    {
        if self.limits[server] == 0 {
            1
        } else {
            self.limits[server] as usize
        }
    }

    /// Gives out the right to use one more connection to a server: one that waits, or else a
    /// new one, which counts from now on.
    pub fn checkout(&mut self, server: usize) -> (r: Checkout)
        requires
            old(self)@.is_valid(),
            server < old(self)@.limits.len(),
            old(self)@.in_use[server as int] < at_least_one(old(self)@.limits[server as int]),
            old(self)@.active < usize::MAX,
        ensures
            final(self)@.is_valid(),
            r == if old(self)@.idle[server as int] > 0 {
                Checkout::Reuse
            } else {
                Checkout::Open
            },
            final(self)@ == (PoolView {
                idle: if r == Checkout::Reuse {
                    lowered(old(self)@.idle, server as int)
                } else {
                    old(self)@.idle
                },
                in_use: raised(old(self)@.in_use, server as int),
                active: old(self)@.active + if r == Checkout::Open {
                    1int
                } else {
                    0int
                },
                ..old(self)@
            }),
    {
        let ghost p = self@;
        let n: usize = self.in_use[server];
        let k: usize = self.idle[server];
        proof {
            lemma_total_bound(p.in_use);
            lemma_total_bound(p.idle);
            lemma_total_update(p.in_use, server as int, (n + 1) as usize);
        }
        self.in_use[server] = n + 1;
        if k > 0 {
            proof {
                lemma_total_update(p.idle, server as int, (k - 1) as usize);
            }
            self.idle[server] = k - 1;
            Checkout::Reuse
        } else {
            self.active = self.active + 1;
            Checkout::Open
        }
    }

    /// Takes back the right to use a connection whose opening failed, or that broke.
    pub fn drop_connection(&mut self, server: usize)
        requires
            old(self)@.is_valid(),
            server < old(self)@.limits.len(),
            old(self)@.in_use[server as int] > 0,
        ensures
            final(self)@.is_valid(),
            final(self)@ == (PoolView {
                in_use: lowered(old(self)@.in_use, server as int),
                active: old(self)@.active - 1,
                ..old(self)@
            }),
    {
        let ghost p = self@;
        let n: usize = self.in_use[server];
        proof {
            lemma_total_bound(p.in_use);
            lemma_total_bound(p.idle);
            lemma_total_update(p.in_use, server as int, (n - 1) as usize);
        }
        self.in_use[server] = n - 1;
        self.active = self.active - 1;
    }

    /// Takes back a connection that can be used again.
    pub fn put(&mut self, server: usize)
        requires
            old(self)@.is_valid(),
            server < old(self)@.limits.len(),
            old(self)@.in_use[server as int] > 0,
        ensures
            final(self)@.is_valid(),
            final(self)@ == (PoolView {
                in_use: lowered(old(self)@.in_use, server as int),
                idle: raised(old(self)@.idle, server as int),
                ..old(self)@
            }),
    {
        let ghost p = self@;
        let n: usize = self.in_use[server];
        let k: usize = self.idle[server];
        proof {
            lemma_total_bound(p.in_use);
            lemma_total_bound(p.idle);
            lemma_total_update(p.in_use, server as int, (n - 1) as usize);
            lemma_total_update(p.idle, server as int, (k + 1) as usize);
        }
        self.in_use[server] = n - 1;
        self.idle[server] = k + 1;
    }

    /// Whether one more connection may be opened ahead of need.
    pub fn may_open(&self) -> (r: bool)
        ensures
            r == (self@.active < total_limit(self@.limits)),
    {
        let mut capacity: u128 = 0;
        assert(self.limits@.take(0) == Seq::<u32>::empty());
        for i in 0..self.limits.len()
            invariant
                capacity == total_limit(self.limits@.take(i as int)),
                capacity <= i * 0xffff_ffff,
        {
            assert(self.limits@.take(i + 1).drop_last() == self.limits@.take(i as int));
            assert((i + 1) * 0xffff_ffff == i * 0xffff_ffff + 0xffff_ffff) by (nonlinear_arith);
            assert(i * 0xffff_ffff <= 0xffff_ffff_ffff_ffff * 0xffff_ffff) by (nonlinear_arith)
                requires
                    i <= 0xffff_ffff_ffff_ffff,
            ;
            let n: u32 = if self.limits[i] == 0 {
                1
            } else {
                self.limits[i]
            };
            capacity = capacity + n as u128;
        }
        assert(self.limits@.take(self.limits@.len() as int) == self.limits@);
        (self.active as u128) < capacity
    }

    /// Counts a connection that was opened ahead of need.
    pub fn opened(&mut self, server: usize)
        requires
            old(self)@.is_valid(),
            server < old(self)@.limits.len(),
            old(self)@.active < usize::MAX,
        ensures
            final(self)@.is_valid(),
            final(self)@ == (PoolView {
                idle: raised(old(self)@.idle, server as int),
                active: old(self)@.active + 1,
                ..old(self)@
            }),
    {
        let ghost p = self@;
        let k: usize = self.idle[server];
        proof {
            lemma_total_bound(p.in_use);
            lemma_total_bound(p.idle);
            lemma_total_update(p.idle, server as int, (k + 1) as usize);
        }
        self.idle[server] = k + 1;
        self.active = self.active + 1;
    }

    /// Takes out one waiting connection, of the first server that has one, to keep it alive.
    pub fn take_idle(&mut self) -> (r: Option<usize>)
        requires
            old(self)@.is_valid(),
        ensures
            final(self)@.is_valid(),
            match r {
                Some(i) => i == first_some(old(self)@.idle) && i < old(self)@.limits.len()
                    && final(self)@ == (PoolView {
                    idle: lowered(old(self)@.idle, i as int),
                    probing: old(self)@.probing + 1,
                    ..old(self)@
                }),
                None => first_some(old(self)@.idle) == old(self)@.idle.len() && final(self)@
                    == old(self)@,
            },
    {
        let ghost p = self@;
        let mut i: usize = 0;
        assert(p.idle.skip(0) == p.idle);
        while i < self.idle.len() && self.idle[i] == 0
            invariant
                i <= self.idle.len(),
                self@ == p,
                first_some(p.idle) == i + first_some(p.idle.skip(i as int)),
            decreases self.idle.len() - i,
        {
            assert(p.idle.skip(i as int)[0] == 0);
            assert(p.idle.skip(i as int).skip(1) == p.idle.skip(i + 1));
            i += 1;
        }
        if i == self.idle.len() {
            return None;
        }
        let k: usize = self.idle[i];
        proof {
            assert(p.idle.skip(i as int)[0] == k);
            lemma_total_bound(p.in_use);
            lemma_total_bound(p.idle);
            lemma_total_update(p.idle, i as int, (k - 1) as usize);
        }
        self.idle[i] = k - 1;
        self.probing = self.probing + 1;
        Some(i)
    }

    /// Counts a connection that was taken out: it waits again if it is alive.
    pub fn probed(&mut self, server: usize, alive: bool)
        requires
            old(self)@.is_valid(),
            server < old(self)@.limits.len(),
            old(self)@.probing > 0,
        ensures
            final(self)@.is_valid(),
            final(self)@ == if alive {
                (PoolView {
                    idle: raised(old(self)@.idle, server as int),
                    probing: old(self)@.probing - 1,
                    ..old(self)@
                })
            } else {
                (PoolView {
                    probing: old(self)@.probing - 1,
                    active: old(self)@.active - 1,
                    ..old(self)@
                })
            },
    {
        let ghost p = self@;
        proof {
            lemma_total_bound(p.in_use);
            lemma_total_bound(p.idle);
        }
        self.probing = self.probing - 1;
        if alive {
            let k: usize = self.idle[server];
            proof {
                lemma_total_update(p.idle, server as int, (k + 1) as usize);
            }
            self.idle[server] = k + 1;
        } else {
            self.active = self.active - 1;
        }
    }
}

/// By priority, lower first.
pub open spec fn by_priority() -> spec_fn(ServerView, ServerView) -> bool {
    |a: ServerView, b: ServerView| a.priority < b.priority
}

/// Orders servers by priority.
pub struct ByServerPriority;

impl Precedence<ServerConfig> for ByServerPriority {
    open spec fn before(&self, a: ServerView, b: ServerView) -> bool {
        by_priority()(a, b)
    }

    fn is_before(&self, a: &ServerConfig, b: &ServerConfig) -> (r: bool) {
        a.priority < b.priority
    }
}

/// Servers in the order in which they are tried.
pub open spec fn tried_in_order(servers: Seq<ServerView>) -> Seq<ServerView> {
    order::sorted(servers, by_priority())
}

/// Every server is tried, and none before one of lower priority number.
pub proof fn servers_come_by_priority(servers: Seq<ServerView>)
    ensures
        tried_in_order(servers).to_multiset() == servers.to_multiset(),
        forall|i: int, j: int|
            0 <= i < j < tried_in_order(servers).len() ==> (#[trigger] tried_in_order(
                servers,
            )[i]).priority <= (#[trigger] tried_in_order(servers)[j]).priority,
{
    let f = by_priority();
    let r = tried_in_order(servers);
    order::sorting_keeps_elements(servers, f);
    order::sorting_puts_in_order(servers, f);
    assert forall|i: int, j: int| 0 <= i < j < r.len() implies (#[trigger] r[i]).priority <= (
    #[trigger] r[j]).priority by {
        assert(!f(r[j], r[i]));
    }
}

/// A download engine: its servers, its connections and its counters.
#[derive(Debug)]
pub struct Engine {
    servers: Vec<ServerConfig>,
    max_connections: usize,
    pool: ConnectionPool,
    stats: PerfStats,
}

impl Engine {
    /// The servers.
    pub closed spec fn server_views(self) -> Seq<ServerView> {
        order::views(self.servers@)
    }

    /// How many workers a run has.
    pub closed spec fn worker_count(self) -> usize {
        self.max_connections
    }

    /// The connections.
    pub closed spec fn pool_view(self) -> PoolView {
        self.pool@
    }

    /// The counters.
    pub closed spec fn counters(self) -> PerfStats {
        self.stats
    }

    /// An engine without connections, which tries its servers by priority.
    pub fn new(servers: Vec<ServerConfig>, total_connections: usize) -> (r: Self)
        ensures
            r.server_views() == tried_in_order(order::views(servers@)),
            r.worker_count() == total_connections,
            r.pool_view().is_valid(),
            r.pool_view() == empty_pool(tried_in_order(order::views(servers@))),
            r.counters() == no_stats(),
    {
        let mut servers = servers;
        sort(&mut servers, &ByServerPriority);
        assert(order::rule::<ServerConfig, ByServerPriority>(ByServerPriority) =~= by_priority());
        let pool = ConnectionPool::new(&servers);
        Engine { servers, max_connections: total_connections, pool, stats: PerfStats::default() }
    }

    /// The number of connections.
    pub fn active_connections(&self) -> (r: usize)
        ensures
            r == self.pool_view().active,
    {
        self.pool.active_count()
    }

    /// The counters.
    pub fn stats(&self) -> (r: PerfStats)
        ensures
            r == self.counters(),
    {
        self.stats
    }

    /// The connections.
    pub fn pool(&self) -> (r: &ConnectionPool)
        ensures
            r@ == self.pool_view(),
    {
        &self.pool
    }

    /// The servers.
    pub fn servers(&self) -> (r: &Vec<ServerConfig>)
        ensures
            order::views(r@) == self.server_views(),
    {
        &self.servers
    }

    /// How many workers a run has.
    pub fn workers(&self) -> (r: usize)
        ensures
            r == self.worker_count(),
    {
        self.max_connections
    }

    /// The parts of the engine, to be shared between workers.
    pub fn into_parts(self) -> (r: (Vec<ServerConfig>, ConnectionPool, PerfStats))
        ensures
            order::views(r.0@) == self.server_views(),
            r.1@ == self.pool_view(),
            r.2 == self.counters(),
    {
        (self.servers, self.pool, self.stats)
    }

    /// Whether to try the servers before a run: only where there is no connection yet.
    pub fn needs_probe(&self) -> (r: bool)
        ensures
            r == (self.pool_view().active == 0),
    {
        self.pool.active_count() == 0
    }
}

/// The queue with the state and the error of a job set.
pub open spec fn with_verdict(
    q: QueueView,
    job_id: int,
    state: JobState,
    error: Option<Seq<char>>,
) -> QueueView {
    q.with_job(job_id, |j: JobView| JobView { state, ..j }).with_job(
        job_id,
        |j: JobView| JobView { error, ..j },
    )
}

/// Begins a run: the job downloads, and an error of an earlier run is cleared. Refused while
/// another job downloads.
pub fn begin_job(q: &mut QueueManager, job_id: i64) -> (r: Result<(), QueueError>)
    requires
        old(q)@.is_valid(),
    ensures
        final(q)@.is_valid(),
        match r {
            Ok(_) => final(q)@ == with_verdict(
                old(q)@,
                job_id as int,
                JobState::Downloading,
                None,
            ),
            Err(e) => e == QueueError::SlotTaken && final(q)@ == old(q)@,
        },
        r is Err == (old(q)@.has_job(job_id as int) && old(q)@.taken_by_other(job_id as int)),
{
    match q.set_job_state(job_id, JobState::Downloading) {
        Ok(_) => {
            q.set_job_error(job_id, None);
            Ok(())
        },
        Err(e) => Err(e),
    }
}

/// Ends a run before it starts: no server can be reached.
pub fn abandon_job(q: &mut QueueManager, job_id: i64, error: &str) -> (r: Vec<ProgressEvent>)
    requires
        old(q)@.is_valid(),
    ensures
        final(q)@.is_valid(),
        ({
            let m = "Cannot reach NNTP server — check the hostname in Settings: "@ + error@;
            &&& final(q)@ == with_verdict(old(q)@, job_id as int, JobState::Failed, Some(m))
            &&& order::views(r@) == seq![
                ProgressView::ArticleError { filename: Seq::empty(), segment: 0, error: m },
                ProgressView::JobFinished { completed: 0, failed: 0 },
            ]
        }),
{
    let message = unreachable_message(error);
    let set = q.set_job_state(job_id, JobState::Failed);
    assert(set is Ok);
    q.set_job_error(job_id, Some(message.as_str()));
    let mut r: Vec<ProgressEvent> = Vec::new();
    let ghost m = message@;
    let filename = String::new();
    assert(filename@ =~= Seq::empty());
    r.push(ProgressEvent::ArticleError { filename, segment: 0, error: message });
    r.push(ProgressEvent::JobFinished { completed: 0, failed: 0 });
    assert(order::views(r@) =~= seq![
        ProgressView::ArticleError { filename: Seq::empty(), segment: 0, error: m },
        ProgressView::JobFinished { completed: 0, failed: 0 },
    ]);
    r
}

/// What is known of a file before it is put together, with the counters of its job brought
/// up to date.
pub fn prepare_assembly(q: &mut QueueManager, file_id: i64) -> (r: Result<
    (QueueFile, AssemblyPlan),
    QueueError,
>)
    requires
        old(q)@.is_valid(),
        old(q)@.has_file(file_id as int) ==> old(q)@.segments_of_job(
            old(q)@.file(file_id as int).job_id,
        ).len() > 0,
    ensures
        final(q)@.is_valid(),
        match r {
            Ok((file, plan)) => {
                let segments = old(q)@.segments_of(file_id as int);
                let refreshed = old(q)@.with_job(
                    old(q)@.file(file_id as int).job_id,
                    |j: JobView| old(q)@.counted(j),
                );
                &&& file.id == file_id
                &&& old(q)@.files.contains(file@)
                &&& plan.parts@ == parts_up_to(segments, file.segment_count as nat)
                &&& plan.missing == slots_up_to(
                    segments,
                    file.segment_count as nat,
                    Slot::Missing,
                )
                &&& plan.crc_mismatches == slots_up_to(
                    segments,
                    file.segment_count as nat,
                    Slot::Corrupt,
                )
                &&& plan.parts@.len() + plan.missing + plan.crc_mismatches == file.segment_count
                &&& final(q)@ == if can_count(old(q)@, file_id as int) {
                    refreshed
                } else {
                    old(q)@
                }
            },
            Err(e) => e == QueueError::NoSuchFile && final(q)@ == old(q)@,
        },
        r is Ok == old(q)@.has_file(file_id as int),
{
    let file = match q.get_file(file_id) {
        Ok(f) => f,
        Err(e) => return Err(e),
    };
    let segments = q.list_segments(file_id);
    let plan = plan_assembly(&segments, file.segment_count);
    let _ = q.refresh_job_counts(file_id);
    Ok((file, plan))
}

/// Whether the sizes of the downloaded segments of the job of a file can be added.
pub open spec fn can_count(q: QueueView, file_id: int) -> bool {
    queue::sum_bytes(
        q.segments_of_job(q.file(file_id).job_id).filter(
            |s: SegmentView| s.state == SegmentState::Done,
        ),
    ) <= i64::MAX
}

/// The files of a job that are put together: those of a list, which names the files that had
/// work in this run and those whose parts were never put together.
pub fn files_to_assemble(q: &QueueManager, job_id: i64, left: &Vec<i64>) -> (r: Vec<QueueFile>)
    ensures
        order::views(r@) == q@.files_of(job_id as int).filter(
            |f: FileView| queue::listed(left@, f.id),
        ),
{
    let files = q.list_files(job_id);
    let ghost all = order::views(files@);
    let ghost keep = |f: FileView| queue::listed(left@, f.id);
    let mut r: Vec<QueueFile> = Vec::new();
    proof {
        reveal(Seq::filter);
        assert(all.take(0) == Seq::<FileView>::empty());
        assert(order::views(r@) =~= Seq::empty());
    }
    for i in 0..files.len()
        invariant
            all == order::views(files@),
            keep == (|f: FileView| queue::listed(left@, f.id)),
            order::views(r@) == all.take(i as int).filter(keep),
    {
        proof {
            assert(all[i as int] == files@[i as int]@);
            assert(all.take(i + 1) == all.take(i as int).push(all[i as int]));
            order::filter_of_push(all.take(i as int), all[i as int], keep);
        }
        if queue::is_listed(left, files[i].id) {
            let ghost had = order::views(r@);
            r.push(files[i].clone());
            assert(order::views(r@) =~= had.push(all[i as int]));
        }
    }
    assert(all.take(all.len() as int) == all);
    r
}

/// What became of the files that were put together, by their ids. One that could not be has no
/// outcome.
pub type Judged = Seq<(i64, Option<FileOutcome>)>;

/// Whether nothing was found wrong with a file when it was put together.
pub open spec fn is_cleared(judged: Judged, file_id: int) -> bool {
    forall|i: int|
        0 <= i < judged.len() && (#[trigger] judged[i]).0 == file_id ==> judged[i].1 is Some
            && judged[i].1->0.is_whole()
}

/// Whether there is a part for every position of a file.
pub open spec fn has_every_part(q: QueueView, f: FileView) -> bool {
    forall|n: int|
        1 <= n <= f.segment_count ==> #[trigger] slot(q.segments_of(f.id), n) == Slot::Part
}

/// Whether a file is whole: there is a part for every position, and nothing was found wrong with
/// it when it was put together.
pub open spec fn file_is_whole(q: QueueView, f: FileView, judged: Judged) -> bool {
    has_every_part(q, f) && is_cleared(judged, f.id)
}

/// The number of files of a job that are whole.
pub open spec fn whole_files(q: QueueView, job_id: int, judged: Judged) -> nat {
    q.files_of(job_id).filter(|f: FileView| file_is_whole(q, f, judged)).len()
}

/// The number of files of a job that are not whole.
pub open spec fn broken_files(q: QueueView, job_id: int, judged: Judged) -> nat {
    (q.files_of(job_id).len() - whole_files(q, job_id, judged)) as nat
}

fn is_file_whole(q: &QueueManager, file: &QueueFile, judged: &Vec<(i64, Option<FileOutcome>)>) -> (r:
    bool)
    ensures
        r == file_is_whole(q@, file@, judged@),
{
    let segments = q.list_segments(file.id);
    let plan = plan_assembly(&segments, file.segment_count);
    proof {
        whole_files_have_every_part(q@.segments_of(file@.id), file.segment_count as nat);
    }
    if plan.missing > 0 || plan.crc_mismatches > 0 {
        return false;
    }
    assert(has_every_part(q@, file@));
    let mut i: usize = 0;
    while i < judged.len()
        invariant
            i <= judged.len(),
            forall|k: int|
                0 <= k < i && (#[trigger] judged@[k]).0 == file@.id ==> judged@[k].1 is Some
                    && judged@[k].1->0.is_whole(),
        decreases judged.len() - i,
    {
        if judged[i].0 == file.id {
            let whole = match &judged[i].1 {
                Some(o) => o.complete(),
                None => false,
            };
            if !whole {
                return false;
            }
        }
        i += 1;
    }
    true
}

/// Ends a run: the job is complete if every one of its files is whole, and else failed with the
/// number of files that are not. `judged` says what became of the files that were put together
/// in this run.
pub fn finish_job(q: &mut QueueManager, job_id: i64, judged: &Vec<(i64, Option<FileOutcome>)>) -> (r:
    (JobState, ProgressEvent))
    requires
        old(q)@.is_valid(),
    ensures
        final(q)@.is_valid(),
        r.0 == JobState::Complete <==> forall|i: int|
            0 <= i < old(q)@.files_of(job_id as int).len() ==> file_is_whole(
                old(q)@,
                #[trigger] old(q)@.files_of(job_id as int)[i],
                judged@,
            ),
        r.0 == job_outcome(
            broken_files(old(q)@, job_id as int, judged@),
            old(q)@.files_of(job_id as int).len(),
        ).0,
        final(q)@ == with_verdict(
            old(q)@,
            job_id as int,
            r.0,
            job_outcome(
                broken_files(old(q)@, job_id as int, judged@),
                old(q)@.files_of(job_id as int).len(),
            ).1,
        ),
        match r.1@ {
            ProgressView::JobFinished { completed, failed } => completed == whole_files(
                old(q)@,
                job_id as int,
                judged@,
            ) && failed == broken_files(old(q)@, job_id as int, judged@),
            _ => false,
        },
{
    let files = q.list_files(job_id);
    let ghost all = order::views(files@);
    let ghost whole = |f: FileView| file_is_whole(q@, f, judged@);
    let total: usize = files.len();
    let mut completed: usize = 0;
    let mut i: usize = 0;
    proof {
        reveal(Seq::filter);
        assert(all.take(0) == Seq::<FileView>::empty());
    }
    while i < total
        invariant
            i <= total,
            total == files.len(),
            q@ == old(q)@,
            all == order::views(files@),
            whole == (|f: FileView| file_is_whole(q@, f, judged@)),
            completed <= i,
            completed == all.take(i as int).filter(whole).len(),
            completed == i <==> forall|k: int| 0 <= k < i ==> whole(#[trigger] all[k]),
        decreases total - i,
    {
        proof {
            assert(all[i as int] == files@[i as int]@);
            assert(all.take(i + 1) == all.take(i as int).push(all[i as int]));
            order::filter_of_push(all.take(i as int), all[i as int], whole);
        }
        if is_file_whole(q, &files[i], judged) {
            completed += 1;
        }
        i += 1;
    }
    assert(all.take(total as int) == all);
    let failed: usize = total - completed;
    let (state, error) = job_verdict(failed, total);
    let set = q.set_job_state(job_id, state);
    assert(set is Ok);
    match &error {
        Some(m) => q.set_job_error(job_id, Some(m.as_str())),
        None => q.set_job_error(job_id, None),
    }
    (state, ProgressEvent::JobFinished { completed, failed })
}

/// A run that is over leaves the download slot free for the next job.
pub proof fn finished_job_frees_slot(
    q: QueueView,
    job_id: int,
    failed: nat,
    files: nat,
    error: Option<Seq<char>>,
)
    requires
        q.is_valid(),
        !q.taken_by_other(job_id),
    ensures
        !with_verdict(q, job_id, job_outcome(failed, files).0, error).is_downloading(),
{
    let r = with_verdict(q, job_id, job_outcome(failed, files).0, error);
    assert forall|i: int| 0 <= i < r.jobs.len() implies (#[trigger] r.jobs[i]).state
        != JobState::Downloading by {
        if q.jobs[i].id != job_id {
            assert(q.jobs[i].state != JobState::Downloading);
        }
    }
}

/// Whether the segment at `m` is the first of a list with the number `n`.
pub open spec fn is_first_with(segments: Seq<SegmentView>, m: int, n: int) -> bool {
    &&& 0 <= m < segments.len()
    &&& segments[m].number == n
    &&& forall|j: int| 0 <= j < m ==> (#[trigger] segments[j]).number != n
}

proof fn lemma_numbered(segments: Seq<SegmentView>, n: int, m: int)
    requires
        is_first_with(segments, m, n),
    ensures
        numbered(segments, n) == Some(segments[m]),
    decreases segments.len(),
{
    if m > 0 {
        let t = segments.skip(1);
        assert(segments[0].number != n);
        assert forall|j: int| 0 <= j < m - 1 implies (#[trigger] t[j]).number != n by {
            assert(t[j] == segments[j + 1]);
        }
        lemma_numbered(t, n, m - 1);
    }
}

proof fn lemma_first_with(segments: Seq<SegmentView>, n: int) -> (m: int)
    ensures
        numbered(segments, n) is Some ==> is_first_with(segments, m, n),
        numbered(segments, n) is None ==> forall|j: int|
            0 <= j < segments.len() ==> (#[trigger] segments[j]).number != n,
    decreases segments.len(),
{
    if segments.len() == 0 || segments[0].number == n {
        0
    } else {
        let t = segments.skip(1);
        let m = lemma_first_with(t, n);
        assert forall|j: int|
            0 <= j < segments.len() && (numbered(segments, n) is None || j < m + 1) implies (
        #[trigger] segments[j]).number != n by {
            if j > 0 {
                assert(segments[j] == t[j - 1]);
            }
        }
        m + 1
    }
}

/// The first segment with a number decides what there is for that position of a file: a part if
/// it is done, a corrupt one if its checksum is wrong, and else nothing. There is nothing either
/// where it is known to be missing, or no segment has the number.
pub proof fn segments_decide_positions(segments: Seq<SegmentView>, n: int, m: int)
    ensures
        is_first_with(segments, m, n) ==> {
            &&& slot(segments, n) == Slot::Part <==> !segments[m].missing && segments[m].state
                == SegmentState::Done
            &&& slot(segments, n) == Slot::Corrupt <==> !segments[m].missing && segments[m].state
                == SegmentState::CrcMismatch
        },
        (forall|j: int| 0 <= j < segments.len() ==> (#[trigger] segments[j]).number != n) ==> slot(
            segments,
            n,
        ) == Slot::Missing,
{
    if is_first_with(segments, m, n) {
        lemma_numbered(segments, n, m);
    }
    let k = lemma_first_with(segments, n);
}

/// The parts of a file are written in ascending order of their numbers, each once, and exactly
/// those are written for whose position there is a part: the first segment with that number is
/// done, and not known to be missing.
pub proof fn parts_are_written_in_order(segments: Seq<SegmentView>, n: nat, k: u32)
    requires
        n <= u32::MAX,
    ensures
        forall|i: int, j: int|
            0 <= i < j < parts_up_to(segments, n).len() ==> #[trigger] parts_up_to(segments, n)[i]
                < #[trigger] parts_up_to(segments, n)[j],
        parts_up_to(segments, n).contains(k) <==> 1 <= k <= n && exists|m: int| #[trigger]
            is_first_with(segments, m, k as int) && !segments[m].missing && segments[m].state
                == SegmentState::Done,
{
    lemma_parts(segments, n, k);
    let m = lemma_first_with(segments, k as int);
    segments_decide_positions(segments, k as int, m);
    if slot(segments, k as int) == Slot::Part {
        assert(is_first_with(segments, m, k as int));
    }
    if exists|m: int| #[trigger]
        is_first_with(segments, m, k as int) && !segments[m].missing && segments[m].state
            == SegmentState::Done {
        let p = choose|m: int| #[trigger]
            is_first_with(segments, m, k as int) && !segments[m].missing && segments[m].state
                == SegmentState::Done;
        segments_decide_positions(segments, k as int, p);
    }
}

proof fn lemma_parts(segments: Seq<SegmentView>, n: nat, k: u32)
    requires
        n <= u32::MAX,
    ensures
        forall|i: int, j: int|
            0 <= i < j < parts_up_to(segments, n).len() ==> #[trigger] parts_up_to(segments, n)[i]
                < #[trigger] parts_up_to(segments, n)[j],
        forall|i: int|
            0 <= i < parts_up_to(segments, n).len() ==> 1 <= #[trigger] parts_up_to(segments, n)[i]
                <= n,
        parts_up_to(segments, n).contains(k) <==> 1 <= k <= n && slot(segments, k as int)
            == Slot::Part,
    decreases n,
{
    if n > 0 {
        let m = (n - 1) as nat;
        lemma_parts(segments, m, k);
        let before = parts_up_to(segments, m);
        let now = parts_up_to(segments, n);
        if slot(segments, n as int) == Slot::Part {
            assert(now == before.push(n as u32));
            assert(now[before.len() as int] == n as u32);
            if before.contains(k) {
                let i = choose|i: int| 0 <= i < before.len() && before[i] == k;
                assert(now[i] == k);
            }
        }
    }
}

/// Each position of a file counts once: one more position adds one to what there is for it, and
/// nothing to the rest.
pub proof fn positions_count_once(segments: Seq<SegmentView>, n: nat)
    ensures
        slots_up_to(segments, 0, Slot::Missing) == 0,
        slots_up_to(segments, 0, Slot::Corrupt) == 0,
        slots_up_to(segments, n + 1, Slot::Missing) == slots_up_to(segments, n, Slot::Missing) + (
        if slot(segments, (n + 1) as int) == Slot::Missing {
            1nat
        } else {
            0
        }),
        slots_up_to(segments, n + 1, Slot::Corrupt) == slots_up_to(segments, n, Slot::Corrupt) + (
        if slot(segments, (n + 1) as int) == Slot::Corrupt {
            1nat
        } else {
            0
        }),
{
}

/// A file is whole exactly if each of its positions has a segment that is done, and putting it
/// together, if that was tried, found no hole and no wrong checksum.
pub proof fn whole_files_are_done(q: QueueView, f: FileView, judged: Judged)
    ensures
        file_is_whole(q, f, judged) <==> {
            &&& forall|n: int|
                1 <= n <= f.segment_count ==> #[trigger] slot(q.segments_of(f.id), n) == Slot::Part
            &&& forall|i: int|
                0 <= i < judged.len() && (#[trigger] judged[i]).0 == f.id ==> judged[i].1 is Some
                    && judged[i].1->0.missing == 0 && judged[i].1->0.crc_mismatches == 0
        },
{
}

/// A job is complete exactly if no file failed; else it failed, and its error tells how many of
/// its files did.
pub proof fn jobs_fail_with_their_files(failed: nat, total: nat)
    ensures
        failed == 0 ==> job_outcome(failed, total).0 == JobState::Complete && job_outcome(
            failed,
            total,
        ).1 is None,
        failed > 0 ==> job_outcome(failed, total).0 == JobState::Failed && job_outcome(
            failed,
            total,
        ).1 is Some && text::has_prefix(
            job_outcome(failed, total).1->0,
            text::decimal(failed) + " of "@ + text::decimal(total),
        ),
{
    let head = text::decimal(failed) + " of "@ + text::decimal(total);
    text::affixes_are_pieces(head, head, " files with missing/corrupt segments"@);
}

/// The files of a job are whole or broken, each one of the two; nothing is broken exactly if
/// every file is whole.
pub proof fn files_are_whole_or_broken(q: QueueView, job_id: int, judged: Judged)
    ensures
        whole_files(q, job_id, judged) + broken_files(q, job_id, judged) == q.files_of(
            job_id,
        ).len(),
        broken_files(q, job_id, judged) == 0 <==> forall|i: int|
            0 <= i < q.files_of(job_id).len() ==> file_is_whole(
                q,
                #[trigger] q.files_of(job_id)[i],
                judged,
            ),
{
    let all = q.files_of(job_id);
    let whole = |f: FileView| file_is_whole(q, f, judged);
    all.lemma_filter_len(whole);
    lemma_full_filter(all, whole);
}

proof fn lemma_full_filter(s: Seq<FileView>, keep: spec_fn(FileView) -> bool)
    ensures
        s.filter(keep).len() <= s.len(),
        s.filter(keep).len() == s.len() <==> forall|i: int| 0 <= i < s.len() ==> keep(
            #[trigger] s[i],
        ),
    decreases s.len(),
{
    reveal(Seq::filter);
    if s.len() > 0 {
        let t = s.drop_last();
        lemma_full_filter(t, keep);
        assert(s[s.len() - 1] == s.last());
        if forall|i: int| 0 <= i < t.len() ==> keep(#[trigger] t[i]) {
            assert forall|i: int| 0 <= i < s.len() - 1 implies keep(#[trigger] s[i]) by {
                assert(s[i] == t[i]);
            }
        } else {
            let i = choose|i: int| 0 <= i < t.len() && !keep(#[trigger] t[i]);
            assert(s[i] == t[i]);
        }
    }
}

/// A segment is fetched as long as it was taken fewer than four times, and given up then. Taking
/// the next segment counts one more try of it, and of no other.
pub proof fn segments_are_tried_four_times(w: WorkView, id: i64)
    requires
        w.items.len() > 0,
        w.items[0].1.id == w.items[0].1.id as i64,
        w.tried(w.items[0].1.id as i64) < u32::MAX,
    ensures
        w.will_fetch() <==> w.tried(w.items[0].1.id as i64) < 4,
        !w.attempts.dom().contains(id) ==> w.tried(id) == 0,
        w.taken().tried(id) == w.tried(id) + (if id == w.items[0].1.id {
            1int
        } else {
            0
        }),
        w.taken().items.len() == w.items.len() - 1,
        forall|i: int| 0 <= i < w.items.len() - 1 ==> #[trigger] w.taken().items[i] == w.items[i
            + 1],
        w.taken().files == w.files,
{
}

/// A segment that is put back is the next to be taken, before all others, and the tries of none
/// change.
pub proof fn returned_segments_come_next(w: WorkView, file: int, s: SegmentView)
    ensures
        w.returned(file, s).items.len() == w.items.len() + 1,
        w.returned(file, s).items[0] == (file, s),
        forall|i: int|
            0 <= i < w.items.len() ==> #[trigger] w.returned(file, s).items[i + 1] == w.items[i],
        w.returned(file, s).attempts == w.attempts,
        w.returned(file, s).files == w.files,
{
}

/// The work of a job is the segments of its files, one file after the other, each with the place
/// of its file.
pub proof fn work_goes_file_by_file(
    pending: Seq<(FileView, Seq<SegmentView>)>,
    file: FileView,
    segments: Seq<SegmentView>,
)
    ensures
        flattened(Seq::empty()) == Seq::<(int, SegmentView)>::empty(),
        ({
            let r = flattened(pending.push((file, segments)));
            let before = flattened(pending);
            &&& r.len() == before.len() + segments.len()
            &&& forall|i: int| 0 <= i < before.len() ==> #[trigger] r[i] == before[i]
            &&& forall|i: int|
                0 <= i < segments.len() ==> #[trigger] r[before.len() + i] == (
                    pending.len() as int,
                    segments[i],
                )
        }),
{
    assert(pending.push((file, segments)).drop_last() =~= pending);
}

/// What is begun is reported file by file, with the number of segments to fetch of each.
pub proof fn begun_files_are_reported(pending: Seq<(FileView, Seq<SegmentView>)>, i: int)
    requires
        0 <= i < pending.len(),
        pending[i].1.len() <= u32::MAX,
    ensures
        started(pending).len() == pending.len(),
        started(pending)[i] == (ProgressView::FileStarted {
            filename: pending[i].0.filename,
            segments: pending[i].1.len() as u32,
        }),
{
}

/// A segment is done if its article was decoded and its checksum is right or unknown, corrupt if
/// the checksum is wrong, failed if the article cannot be decoded, and missing if no server has
/// it. A missing one counts no bytes, any other those that were announced.
pub proof fn articles_settle_segments(fetched: Fetched, file: FileView, s: SegmentView)
    ensures
        settled_state(fetched) == SegmentState::Done <==> (fetched matches Fetched::Decoded {
            crc_ok,
            crc_unknown,
            ..
        } && (crc_ok || crc_unknown)),
        settled_state(fetched) == SegmentState::CrcMismatch <==> (
        fetched matches Fetched::Decoded { crc_ok, crc_unknown, .. } && !crc_ok && !crc_unknown),
        settled_state(fetched) == SegmentState::Failed <==> fetched is Undecodable,
        settled_state(fetched) == SegmentState::Missing <==> fetched is Missing,
        settled_bytes(fetched, s) == if fetched is Missing {
            0
        } else {
            s.bytes
        },
        settled_events(fetched, file, s).last() == (ProgressView::SegmentDone {
            filename: file.filename,
            segment: s.number,
            status: settled_state(fetched),
            bytes: settled_bytes(fetched, s),
        }),
        fetched is Undecodable ==> settled_events(fetched, file, s).len() == 2 && settled_events(
            fetched,
            file,
            s,
        )[0] == (ProgressView::ArticleError {
            filename: file.filename,
            segment: s.number,
            error: fetched->Undecodable_0@,
        }),
        !(fetched is Undecodable) ==> settled_events(fetched, file, s).len() == 1,
{
}

/// A file takes the name that a good article gives it, made safe, unless that is empty, or its own
/// name or the real name that is known, or one was noted already. A bad article gives no name.
pub proof fn good_articles_name_files(
    name: String,
    crc_ok: bool,
    crc_unknown: bool,
    file: FileView,
    latched: Set<i64>,
)
    ensures
        ({
            let r = real_name(Fetched::Decoded { crc_ok, crc_unknown, name }, file, latched);
            let n = sanitized(name@);
            &&& !crc_ok && !crc_unknown ==> r is None
            &&& n.len() == 0 || n == file.filename || file.yenc_name == Some(n)
                || latched.contains(file.id as i64) ==> r is None
            &&& (crc_ok || crc_unknown) && n.len() > 0 && n != file.filename && file.yenc_name
                != Some(n) && !latched.contains(file.id as i64) ==> r == Some(n)
        }),
        real_name(Fetched::Missing, file, latched) is None,
{
}

/// A name that is made safe keeps its characters but for the separators, which become underscores.
pub proof fn safe_names_keep_their_characters(name: Seq<char>, i: int)
    requires
        0 <= i < text::trimmed(name).len(),
    ensures
        sanitized(name).len() == text::trimmed(name).len(),
        sanitized(name)[i] == if text::trimmed(name)[i] == '/' || text::trimmed(name)[i] == '\\' {
            '_'
        } else {
            text::trimmed(name)[i]
        },
{
}

/// An article is there if any server sent it. It is missing only if there are servers and each of
/// them answered and does not give it. A server that cannot be reached or broke off leaves it to
/// be tried again.
pub proof fn all_servers_decide(answers: Seq<ServerAnswer>)
    ensures
        article_outcome(answers) == ArticleOutcome::Found <==> exists|i: int|
            0 <= i < answers.len() && #[trigger] answers[i] == ServerAnswer::Article,
        article_outcome(answers) == ArticleOutcome::Missing <==> answers.len() > 0 && forall|
            i: int,
        |
            0 <= i < answers.len() ==> (#[trigger] answers[i] == ServerAnswer::Missing || answers[i]
                == ServerAnswer::Present),
{
    if answers.len() > 0 {
        assert(answers[0] == answers[0]);
    }
    if answers.contains(ServerAnswer::Article) {
        let i = choose|i: int| 0 <= i < answers.len() && answers[i] == ServerAnswer::Article;
        assert(!says_missing(answers[i]));
    }
}

/// A connection is used again unless it broke.
pub proof fn broken_connections_are_dropped(a: ServerAnswer)
    ensures
        fate_of(a) == ConnectionFate::Discard <==> a == ServerAnswer::Broken,
        fate_of(a) == ConnectionFate::NoConnection <==> a == ServerAnswer::Unreachable,
{
}

/// A message tells of a host name that cannot be resolved if it speaks of a lookup, of resolving,
/// of DNS, or of a name or service that is not known, and in no other case.
pub proof fn dns_messages_have_their_words(h: Seq<char>, t: Seq<char>, low: Seq<char>)
    ensures
        tells_of_dns(h + "lookup"@ + t),
        tells_of_dns(h + "resolve"@ + t),
        tells_of_dns(h + "dns"@ + t),
        tells_of_dns(h + "name or service not known"@ + t),
        tells_of_dns(low) ==> text::has_infix(low, "lookup"@) || text::has_infix(low, "resolve"@)
            || text::has_infix(low, "dns"@) || text::has_infix(
            low,
            "name or service not known"@,
        ),
{
    text::infixes_are_pieces(h + "lookup"@ + t, "lookup"@);
    text::infixes_are_pieces(h + "resolve"@ + t, "resolve"@);
    text::infixes_are_pieces(h + "dns"@ + t, "dns"@);
    text::infixes_are_pieces(h + "name or service not known"@ + t, "name or service not known"@);
}

/// A job is given up before it starts exactly if there are servers and no connection to one can
/// ever be made: each failed because its host name cannot be resolved. The last error tells why.
pub proof fn unresolved_servers_end_a_job(attempts: Seq<Result<(), String>>)
    ensures
        precheck_error(attempts) is Some <==> attempts.len() > 0 && forall|i: int|
            0 <= i < attempts.len() ==> (#[trigger] attempts[i]) is Err && tells_of_dns(
                text::lowered(attempts[i]->Err_0@),
            ),
        precheck_error(attempts) is Some ==> precheck_error(attempts) == Some(
            attempts[attempts.len() - 1]->Err_0@,
        ),
{
    if precheck_error(attempts) is Some {
        assert forall|i: int| 0 <= i < attempts.len() implies (#[trigger] attempts[i]) is Err
            && tells_of_dns(text::lowered(attempts[i]->Err_0@)) by {
            assert(failed_for_dns(attempts[i]));
        }
    } else if attempts.len() > 0 {
        let i = choose|i: int| 0 <= i < attempts.len() && !failed_for_dns(#[trigger] attempts[i]);
        assert(!failed_for_dns(attempts[i]));
    }
}

/// A new pool has no connection, and a limit for each server: what it allows, or one where it says
/// nothing. All limits together are the sum of these.
pub proof fn pools_start_empty(servers: Seq<ServerView>, i: int, s: Seq<u32>, n: u32)
    requires
        0 <= i < servers.len(),
    ensures
        empty_pool(servers).limits[i] == servers[i].max_connections,
        empty_pool(servers).limits.len() == servers.len(),
        empty_pool(servers).idle[i] == 0,
        empty_pool(servers).in_use[i] == 0,
        empty_pool(servers).active == 0,
        at_least_one(n) >= 1,
        n >= 1 ==> at_least_one(n) == n,
        at_least_one(0) == 1,
        total_limit(Seq::empty()) == 0,
        total_limit(s.push(n)) == total_limit(s) + at_least_one(n),
{
    assert(s.push(n).drop_last() =~= s);
}

/// One more or one less of a count changes that count alone.
pub proof fn counts_change_one_by_one(s: Seq<usize>, i: int, j: int)
    requires
        0 <= i < s.len(),
        0 <= j < s.len(),
        0 < s[i] < usize::MAX,
    ensures
        raised(s, i)[i] == s[i] + 1,
        lowered(s, i)[i] == s[i] - 1,
        j != i ==> raised(s, i)[j] == s[j] && lowered(s, i)[j] == s[j],
        raised(s, i).len() == s.len() && lowered(s, i).len() == s.len(),
        s[j] > 0 ==> first_some(s) <= j,
        forall|k: int| 0 <= k < first_some(s) && k < s.len() ==> #[trigger] s[k] == 0,
{
    lemma_first_some(s, j);
}

proof fn lemma_first_some(s: Seq<usize>, j: int)
    ensures
        0 <= j < s.len() && s[j] > 0 ==> first_some(s) <= j,
        forall|k: int| 0 <= k < first_some(s) && k < s.len() ==> #[trigger] s[k] == 0,
    decreases s.len(),
{
    if s.len() > 0 && s[0] == 0 {
        let t = s.skip(1);
        lemma_first_some(t, j - 1);
        assert forall|k: int| 0 <= k < first_some(s) && k < s.len() implies #[trigger] s[k]
            == 0 by {
            if k > 0 {
                assert(s[k] == t[k - 1]);
            }
        }
        if 0 < j < s.len() {
            assert(s[j] == t[j - 1]);
        }
    }
}

/// A segment that was tried too often is reported as failed, with its number and without bytes,
/// and with the number of tries.
pub proof fn given_up_segments_are_reported(file: FileView, s: SegmentView)
    ensures
        given_up(file, s).len() == 2,
        given_up(file, s)[0] == (ProgressView::SegmentDone {
            filename: file.filename,
            segment: s.number,
            status: SegmentState::Failed,
            bytes: 0,
        }),
        given_up(file, s)[1] == (ProgressView::ArticleError {
            filename: file.filename,
            segment: s.number,
            error: "fetch failed after "@ + text::decimal(4) + " attempts (server unreachable?)"@,
        }),
{
}

/// A verdict on a job sets its state and its error, and nothing of any other job.
pub proof fn verdicts_concern_one_job(
    q: QueueView,
    job_id: int,
    state: JobState,
    error: Option<Seq<char>>,
    i: int,
)
    requires
        0 <= i < q.jobs.len(),
    ensures
        ({
            let r = with_verdict(q, job_id, state, error);
            &&& r.jobs.len() == q.jobs.len()
            &&& r.jobs[i] == if q.jobs[i].id == job_id {
                JobView { state, error, ..q.jobs[i] }
            } else {
                q.jobs[i]
            }
            &&& r.files == q.files
            &&& r.segments == q.segments
        }),
{
}

/// The sizes of what a job downloaded can be added where nothing is downloaded yet, and where the
/// sizes of everything can.
pub proof fn sizes_can_be_added(q: QueueView, file_id: int)
    ensures
        (forall|i: int| 0 <= i < q.segments.len() ==> (#[trigger] q.segments[i]).state
            != SegmentState::Done) ==> can_count(q, file_id),
        queue::sum_bytes(q.segments) <= i64::MAX ==> can_count(q, file_id),
{
    let job = q.file(file_id).job_id;
    let mine = |s: SegmentView| q.is_of_job(s, job);
    let done = |s: SegmentView| s.state == SegmentState::Done;
    let all = q.segments_of_job(job);
    queue::kept_segments_are_no_larger(q.segments, mine);
    queue::kept_segments_are_no_larger(all, done);
    if forall|i: int| 0 <= i < q.segments.len() ==> (#[trigger] q.segments[i]).state
        != SegmentState::Done {
        let p = order::filter_positions(q.segments, mine);
        assert forall|i: int| 0 <= i < all.len() implies !done(#[trigger] all[i]) by {
            assert(q.segments[p[i]] == all[i]);
        }
        order::filter_of_uniform(all, done, false);
    }
}

/// Measuring starts with nothing counted.
pub proof fn measures_start_at_nothing()
    ensures
        ({
            let s = no_stats();
            &&& s.articles == 0 && s.bytes == 0
            &&& s.queue_wait_us == 0 && s.acquire_us == 0 && s.fetch_us == 0
            &&& s.decode_us == 0 && s.write_us == 0
            &&& s.conn_created == 0 && s.conn_dropped == 0
            &&& s.fetch_le_20ms == 0 && s.fetch_le_100ms == 0 && s.fetch_le_500ms == 0
            &&& s.fetch_le_2000ms == 0 && s.fetch_gt_2000ms == 0
        }),
{
}

/// In a valid pool every server has its counts, no more connections in use than its limit allows,
/// of which there is at least one, and all connections add up; a pool that starts is valid.
pub proof fn pools_keep_to_limits(
    p: PoolView,
    servers: Seq<ServerView>,
    i: int,
    counts: Seq<usize>,
    n: usize,
)
    ensures
        p.is_valid() && 0 <= i < p.limits.len() ==> p.in_use[i] <= p.limits[i] || p.in_use[i] <= 1,
        p.is_valid() ==> p.idle.len() == p.limits.len() && p.in_use.len() == p.limits.len()
            && p.probing >= 0 && p.active == total(p.idle) + total(p.in_use) + p.probing,
        total(Seq::empty()) == 0,
        total(counts.push(n)) == total(counts) + n,
        empty_pool(servers).is_valid(),
{
    assert(counts.push(n).drop_last() =~= counts);
    lemma_total_of_nothing(servers.len());
}

proof fn lemma_total_of_nothing(n: nat)
    ensures
        total(Seq::new(n, |i: int| 0usize)) == 0,
    decreases n,
{
    let s = Seq::new(n, |i: int| 0usize);
    if n > 0 {
        lemma_total_of_nothing((n - 1) as nat);
        assert(s.drop_last() =~= Seq::new((n - 1) as nat, |i: int| 0usize));
    }
}

} // verus!
