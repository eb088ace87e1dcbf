//! What the background half of the application decides.
//!
//! Only one job downloads at a time. A job that is to download claims the slot of the queue, and
//! gives it back when it is done.
use vstd::prelude::*;

use crate::aggregate::{AggregatedResult, AggregatedView};
use crate::engine::{ProgressEvent, ProgressView};
use crate::error::concat;
use crate::newznab;
use crate::newznab::describe_status;
use crate::nntp::ServerConfig;
use crate::nzb;
use crate::nzb::Nzb;
use crate::order;
use crate::postprocess::{PostProcessConfig, PostProcessReport, ReportView};
use crate::queue;
use crate::queue::{FileView, JobState, JobView, QueueError, QueueFile, QueueJob, QueueManager, QueueView, SegmentState, SegmentView, StatsView};
use crate::settings::{AppConfig, PostProcessDefaults};
use crate::text;
use crate::text::{chars_of, contains, ends_with, from_utf8_lossy, is_alphanumeric, starts_with, string_of, trim_end_of, trim_start};
use crate::types;
use crate::types::{copy_text, IndexerConfig, IndexerConfigView, SearchQuery};

verus! {

/// What the windows ask for.
#[derive(Debug)]
pub enum BackendCmd {
    /// Put the release of an NZB file into the queue.
    DownloadNzb {
        nzb_bytes: Vec<u8>,
        output_dir: String,
        category: Option<String>,
        archive_password: Option<String>,
    },
    /// Fetch an NZB file, and put its release into the queue.
    DownloadFromUrl { url: String, title: String, download_dir: String, category: Option<String> },
    /// Take up a job again.
    ResumeJob { job_id: i64 },
    /// Stop a job, and start none until downloads go on.
    PauseJob { job_id: i64 },
    /// Stop downloads.
    PauseEngine,
    /// Let downloads go on.
    ResumeEngine,
    /// Move a job up by one place in the queue.
    MoveJobUp { job_id: i64 },
    /// Move a job down by one place in the queue.
    MoveJobDown { job_id: i64 },
    /// Remove a job.
    DeleteJob { job_id: i64 },
    /// Check, unpack and move a download.
    PostProcess {
        download_dir: String,
        completed_dir: String,
        category: Option<String>,
        archive_password: Option<String>,
        skip_verify: bool,
        cleanup_archives: bool,
    },
    /// Search all indexers.
    Search { query: SearchQuery },
    /// Try an indexer.
    TestIndexer { config: IndexerConfig },
    /// Try a server.
    TestServer { config: ServerConfig },
    /// Send the list of jobs.
    RefreshJobs,
    /// Send the files of a job.
    GetJobDetails { job_id: i64 },
    /// Keep sending the files of a job.
    SetSelectedJob { job_id: Option<i64> },
    /// Use new settings.
    SetConfig(Box<AppConfig>),
    /// Show an error.
    Error(String),
}

/// How far one file of a job is.
#[derive(Debug)]
pub struct JobFileDetail {
    pub filename: String,
    pub segment_count: u32,
    pub segments_done: u32,
    pub segments_missing: u32,
    pub total_bytes: u64,
    pub downloaded_bytes: u64,
}

impl View for JobFileDetail {
    type V = StatsView;

    open spec fn view(&self) -> StatsView {
        StatsView {
            filename: self.filename@,
            segment_count: self.segment_count,
            segments_done: self.segments_done,
            segments_missing: self.segments_missing,
            total_bytes: self.total_bytes,
            downloaded_bytes: self.downloaded_bytes,
        }
    }
}

impl Clone for JobFileDetail {
    fn clone(&self) -> (r: Self)
        ensures
            r@ == self@,
    {
        JobFileDetail {
            filename: self.filename.clone(),
            segment_count: self.segment_count,
            segments_done: self.segments_done,
            segments_missing: self.segments_missing,
            total_bytes: self.total_bytes,
            downloaded_bytes: self.downloaded_bytes,
        }
    }
}

/// What the windows are told.
#[derive(Debug)]
pub enum BackendEvent {
    /// A run reports.
    Progress(ProgressEvent),
    /// How far the running download is; no job while nothing runs.
    Speed { job_id: Option<i64>, downloaded_bytes: u64, total_bytes: u64 },
    /// A job was added.
    JobAdded { job_id: i64 },
    /// A job has another state.
    JobStateChanged { job_id: i64, state: JobState },
    /// All jobs.
    JobsList(Vec<QueueJob>),
    /// The files of a job.
    JobDetails { job_id: i64, files: Vec<JobFileDetail> },
    /// A search found something.
    SearchResults(Vec<AggregatedResult>),
    /// A search failed.
    SearchFailed(String),
    /// An indexer was tried.
    IndexerTestResult { name: String, ok: bool, message: String },
    /// A server was tried.
    ServerTestResult { host: String, ok: bool, message: String },
    /// A download is being checked and unpacked.
    PostProcessStarted { job_id: i64 },
    /// A download was checked and unpacked.
    PostProcessDone { job_id: Option<i64>, report: PostProcessReport },
    /// A download could not be checked and unpacked.
    PostProcessFailed { job_id: Option<i64>, error: String },
    /// Downloads are stopped, or go on.
    EnginePaused(bool),
    /// Something went wrong.
    Error(String),
}

/// What a [`BackendEvent`] says.
pub enum BackendEventView {
    Progress(ProgressView),
    Speed { job_id: Option<i64>, downloaded_bytes: u64, total_bytes: u64 },
    JobAdded { job_id: i64 },
    JobStateChanged { job_id: i64, state: JobState },
    JobsList(Seq<JobView>),
    JobDetails { job_id: i64, files: Seq<StatsView> },
    SearchResults(Seq<AggregatedView>),
    SearchFailed(Seq<char>),
    IndexerTestResult { name: Seq<char>, ok: bool, message: Seq<char> },
    ServerTestResult { host: Seq<char>, ok: bool, message: Seq<char> },
    PostProcessStarted { job_id: i64 },
    PostProcessDone { job_id: Option<i64>, report: ReportView },
    PostProcessFailed { job_id: Option<i64>, error: Seq<char> },
    EnginePaused(bool),
    Error(Seq<char>),
}

impl View for BackendEvent {
    type V = BackendEventView;

    open spec fn view(&self) -> BackendEventView {
        match self {
            BackendEvent::Progress(p) => BackendEventView::Progress(p@),
            BackendEvent::Speed { job_id, downloaded_bytes, total_bytes } =>
            BackendEventView::Speed {
                job_id: *job_id,
                downloaded_bytes: *downloaded_bytes,
                total_bytes: *total_bytes,
            },
            BackendEvent::JobAdded { job_id } => BackendEventView::JobAdded { job_id: *job_id },
            BackendEvent::JobStateChanged { job_id, state } => BackendEventView::JobStateChanged {
                job_id: *job_id,
                state: *state,
            },
            BackendEvent::JobsList(v) => BackendEventView::JobsList(order::views(v@)),
            BackendEvent::JobDetails { job_id, files } => BackendEventView::JobDetails {
                job_id: *job_id,
                files: order::views(files@),
            },
            BackendEvent::SearchResults(v) => BackendEventView::SearchResults(order::views(v@)),
            BackendEvent::SearchFailed(m) => BackendEventView::SearchFailed(m@),
            BackendEvent::IndexerTestResult { name, ok, message } =>
            BackendEventView::IndexerTestResult { name: name@, ok: *ok, message: message@ },
            BackendEvent::ServerTestResult { host, ok, message } =>
            BackendEventView::ServerTestResult { host: host@, ok: *ok, message: message@ },
            BackendEvent::PostProcessStarted { job_id } => BackendEventView::PostProcessStarted {
                job_id: *job_id,
            },
            BackendEvent::PostProcessDone { job_id, report } => BackendEventView::PostProcessDone {
                job_id: *job_id,
                report: report@,
            },
            BackendEvent::PostProcessFailed { job_id, error } =>
            BackendEventView::PostProcessFailed { job_id: *job_id, error: error@ },
            BackendEvent::EnginePaused(p) => BackendEventView::EnginePaused(*p),
            BackendEvent::Error(m) => BackendEventView::Error(m@),
        }
    }
}

/// The address of the API of an indexer: `url` without slashes at its end, and with `/api`
/// there.
pub open spec fn api_url(url: Seq<char>) -> Seq<char> {
    let t = text::without_trailing(url, '/');
    if text::has_suffix(t, "/api"@) {
        t
    } else {
        t + "/api"@
    }
}

/// The address of the API of an indexer.
pub fn normalize_indexer_url(url: &str) -> (r: String)
    ensures
        r@ == api_url(url@),
{
    let cs = chars_of(url);
    let trimmed = trim_end_of(&cs, '/');
    if ends_with(trimmed, "/api") {
        string_of(trimmed)
    } else {
        concat(&string_of(trimmed), "/api")
    }
}

/// The address of an API ends in `/api`, and making it one again changes nothing.
pub proof fn api_url_is_settled(url: Seq<char>)
    ensures
        text::has_suffix(api_url(url), "/api"@),
        api_url(api_url(url)) == api_url(url),
{
    reveal_strlit("/api");
    let u = api_url(url);
    let t = text::without_trailing(url, '/');
    assert(text::has_suffix(t + "/api"@, "/api"@)) by {
        assert((t + "/api"@).subrange(t.len() as int, t.len() as int + 4) =~= "/api"@);
    }
    assert(u.last() == 'i') by {
        let s = u.subrange(u.len() - 4, u.len() as int);
        assert(s == "/api"@);
        assert(s[3] == u[u.len() - 1]);
    }
    assert(text::without_trailing(u, '/') == u);
}

/// An indexer with the address of its API.
pub fn normalize_indexer_config(cfg: IndexerConfig) -> (r: IndexerConfig)
    ensures
        r@ == (IndexerConfigView { url: api_url(cfg@.url), ..cfg@ }),
{
    let mut cfg = cfg;
    cfg.url = normalize_indexer_url(&cfg.url);
    cfg
}

/// An address with the key of the first indexer that it belongs to, unless it has one.
pub open spec fn keyed_url(url: Seq<char>, indexers: Seq<IndexerConfigView>) -> Seq<char>
    decreases indexers.len(),
{
    if indexers.len() == 0 {
        url
    } else if text::has_prefix(url, api_url(indexers[0].url)) {
        if text::has_infix(url, "apikey="@) {
            url
        } else {
            url + (if text::has_infix(url, "?"@) {
                "&"@
            } else {
                "?"@
            }) + "apikey="@ + indexers[0].api_key
        }
    } else {
        keyed_url(url, indexers.skip(1))
    }
}

/// An address with the key of the indexer that it belongs to, unless it has one.
pub fn append_api_key(url: &str, indexers: &Vec<IndexerConfig>) -> (r: String)
    ensures
        r@ == keyed_url(url@, order::views(indexers@)),
{
    let ghost all = order::views(indexers@);
    let cs = chars_of(url);
    let mut i: usize = 0;
    assert(all.skip(0) == all);
    while i < indexers.len()
        invariant
            i <= indexers.len(),
            cs@ == url@,
            all == order::views(indexers@),
            keyed_url(url@, all) == keyed_url(url@, all.skip(i as int)),
        decreases indexers.len() - i,
    {
        assert(all.skip(i as int)[0] == indexers@[i as int]@);
        let base = normalize_indexer_url(&indexers[i].url);
        if starts_with(&cs, &base) {
            if contains(&cs, "apikey=") {
                return url.to_owned();
            }
            let mut r = if contains(&cs, "?") {
                concat(url, "&")
            } else {
                concat(url, "?")
            };
            r.append("apikey=");
            r.append(&indexers[i].api_key);
            return r;
        }
        assert(all.skip(i as int).skip(1) == all.skip(i + 1));
        i += 1;
    }
    url.to_owned()
}

/// An address that has a key keeps it: no key is added twice.
pub proof fn keys_are_added_once(url: Seq<char>, indexers: Seq<IndexerConfigView>)
    ensures
        keyed_url(keyed_url(url, indexers), indexers) == keyed_url(url, indexers),
{
    let k = keyed_url(url, indexers);
    lemma_keyed(url, indexers);
    if k != url {
        lemma_has_key(k, indexers);
    }
}

proof fn lemma_keyed(url: Seq<char>, indexers: Seq<IndexerConfigView>)
    ensures
        keyed_url(url, indexers) == url || text::has_infix(keyed_url(url, indexers), "apikey="@),
    decreases indexers.len(),
{
    if indexers.len() > 0 {
        if text::has_prefix(url, api_url(indexers[0].url)) {
            if !text::has_infix(url, "apikey="@) {
                let head = url + (if text::has_infix(url, "?"@) {
                    "&"@
                } else {
                    "?"@
                });
                let k = head + "apikey="@ + indexers[0].api_key;
                let at = head.len() as int;
                assert(k.subrange(at, at + "apikey="@.len()) =~= "apikey="@);
                assert(text::occurs_at(k, "apikey="@, at));
            }
        } else {
            lemma_keyed(url, indexers.skip(1));
        }
    }
}

proof fn lemma_has_key(url: Seq<char>, indexers: Seq<IndexerConfigView>)
    requires
        text::has_infix(url, "apikey="@),
    ensures
        keyed_url(url, indexers) == url,
    decreases indexers.len(),
{
    if indexers.len() > 0 {
        lemma_has_key(url, indexers.skip(1));
    }
}

/// Whether a text starts, behind white space, like an NZB file.
pub open spec fn starts_like_nzb(head: Seq<char>) -> bool {
    let t = text::trimmed_start(head);
    text::has_prefix(t, "<?xml"@) || text::has_prefix(t, "<nzb"@)
}

/// Whether a text starts, behind white space, like an NZB file.
pub fn is_nzb_head(head: &str) -> (r: bool)
    ensures
        r == starts_like_nzb(head@),
{
    let cs = chars_of(head);
    let t = trim_start(&cs);
    starts_with(t, "<?xml") || starts_with(t, "<nzb")
}

/// Whether what was fetched looks like an NZB file, and not like an error page: by its first
/// 200 bytes.
pub fn looks_like_nzb(bytes: &Vec<u8>) -> (r: bool)
    ensures
        r == starts_like_nzb(
            text::decoded(
                bytes@.take(
                    if bytes@.len() < 200 {
                        bytes@.len() as int
                    } else {
                        200
                    },
                ),
            ),
        ),
{
    let n: usize = if bytes.len() < 200 {
        bytes.len()
    } else {
        200
    };
    let head = vstd::slice::slice_subrange(bytes.as_slice(), 0, n);
    assert(head@ == bytes@.take(n as int));
    is_nzb_head(&from_utf8_lossy(head))
}

/// Whether a character may stand in the name of a directory.
pub open spec fn is_safe_char(c: char) -> bool {
    text::is_word_char(c) || c == '.' || c == '-' || c == '_'
}

/// The directory for a release: its title without what may not stand there, or a fixed name.
pub open spec fn directory_for(title: Seq<char>) -> Seq<char> {
    let s = title.filter(|c: char| is_safe_char(c));
    if s.len() == 0 {
        "nobz-download"@
    } else {
        s
    }
}

/// The directory for a release.
pub fn safe_dir_name(title: &str) -> (r: String)
    ensures
        r@ == directory_for(title@),
{
    let cs = chars_of(title);
    let ghost keep = |c: char| is_safe_char(c);
    let mut out: Vec<char> = Vec::new();
    proof {
        reveal(Seq::filter);
        assert(cs@.take(0) == Seq::<char>::empty());
        assert(out@ =~= cs@.take(0).filter(keep));
    }
    for i in 0..cs.len()
        invariant
            keep == (|c: char| is_safe_char(c)),
            out@ == cs@.take(i as int).filter(keep),
    {
        let c: char = cs[i];
        proof {
            assert(cs@.take(i + 1) == cs@.take(i as int).push(c));
            order::filter_of_push(cs@.take(i as int), c, keep);
        }
        if is_alphanumeric(c) || c == '.' || c == '-' || c == '_' {
            out.push(c);
        }
    }
    assert(cs@.take(cs@.len() as int) == cs@);
    if out.len() == 0 {
        "nobz-download".to_owned()
    } else {
        string_of(&out)
    }
}

/// The directory for a release has a name, of which every character may stand there: no
/// separator of a path, for one.
pub proof fn directory_names_are_safe(title: Seq<char>, i: int)
    ensures
        directory_for(title).len() > 0,
        0 <= i < directory_for(title).len() ==> is_safe_char(directory_for(title)[i])
            && directory_for(title)[i] != '/' && directory_for(title)[i] != '\\',
{
    let keep = |c: char| is_safe_char(c);
    let p = order::filter_positions(title, keep);
    reveal_strlit("nobz-download");
    if 0 <= i < title.filter(keep).len() {
        assert(keep(title.filter(keep)[i]));
    }
}

/// How far each file of a list is.
pub fn build_job_details(q: &QueueManager, files: &Vec<QueueFile>) -> (r: Vec<JobFileDetail>)
    ensures
        order::views(r@) == order::views(files@).map_values(|f: FileView| q@.stats_of(f)),
{
    let mut r: Vec<JobFileDetail> = Vec::new();
    for i in 0..files.len()
        invariant
            r.len() == i,
            forall|k: int| 0 <= k < i ==> (#[trigger] r@[k])@ == q@.stats_of(files@[k]@),
    {
        let s = q.file_stats(&files[i]);
        r.push(
            JobFileDetail {
                filename: s.filename,
                segment_count: s.segment_count,
                segments_done: s.segments_done,
                segments_missing: s.segments_missing,
                total_bytes: s.total_bytes,
                downloaded_bytes: s.downloaded_bytes,
            },
        );
    }
    assert(order::views(r@) =~= order::views(files@).map_values(|f: FileView| q@.stats_of(f)));
    r
}

/// What happens when a download could start.
#[derive(Debug, Clone, Copy, PartialEq, Eq, Structural)]
pub enum Start {
    /// Nothing: a download runs, or no job waits.
    Nothing,
    /// No server is set up.
    NoServers,
    /// The job has the slot, and is to be downloaded.
    Run(i64),
}

/// The queue with the slot given to a job.
pub open spec fn with_slot(q: QueueView, id: int) -> QueueView {
    q.with_job(id, |j: JobView| JobView { state: JobState::Downloading, ..j })
}

/// The job that gets the slot, if no download runs: the first that waits.
pub open spec fn next_to_run(q: QueueView) -> Option<JobView> {
    if q.is_downloading() {
        None
    } else {
        queue::first_queued(q.jobs_in_order())
    }
}

proof fn lemma_first_queued(jobs: Seq<JobView>)
    ensures
        match queue::first_queued(jobs) {
            Some(j) => jobs.contains(j) && j.state == JobState::Queued,
            None => true,
        },
    decreases jobs.len(),
{
    if jobs.len() > 0 {
        if jobs[0].state == JobState::Queued {
            assert(jobs.contains(jobs[0]));
        } else {
            lemma_first_queued(jobs.skip(1));
            if let Some(j) = queue::first_queued(jobs.skip(1)) {
                let k = choose|k: int| 0 <= k < jobs.skip(1).len() && jobs.skip(1)[k] == j;
                assert(jobs[k + 1] == j);
            }
        }
    }
}

proof fn lemma_next_is_queued(q: QueueView)
    ensures
        match queue::first_queued(q.jobs_in_order()) {
            Some(j) => q.is_queued(j.id),
            None => true,
        },
{
    lemma_first_queued(q.jobs_in_order());
    order::sorting_keeps_members(q.jobs, queue::by_priority());
    if let Some(j) = queue::first_queued(q.jobs_in_order()) {
        assert(q.jobs.contains(j));
        let k = choose|k: int| 0 <= k < q.jobs.len() && q.jobs[k] == j;
        assert(q.jobs[k].id == j.id);
    }
}

/// What runs in this process, and whether downloads are stopped.
#[derive(Debug, Clone, Copy, PartialEq, Eq, Structural)]
pub struct Control {
    /// The job whose run is going on. Checking and unpacking belong to the run.
    pub running: Option<i64>,
    /// Whether downloads are stopped: no run starts then.
    pub paused: bool,
}

/// What can happen to the runs.
pub enum Happening {
    /// The next job could start.
    Chance { q: QueueView, has_servers: bool },
    /// The run that was going on is over.
    Over,
    /// Downloads are stopped.
    Pause,
    /// Downloads go on.
    Resume,
}

/// What happens when a download could start: nothing, if downloads are stopped, a run is going
/// on, or no job can get the slot.
pub open spec fn next_start(q: QueueView, c: Control, has_servers: bool) -> Start {
    if c.paused || c.running is Some || next_to_run(q) is None {
        Start::Nothing
    } else if !has_servers {
        Start::NoServers
    } else {
        Start::Run(next_to_run(q)->0.id as i64)
    }
}

impl Control {
    /// What runs after something happened.
    pub open spec fn after(self, h: Happening) -> Control {
        match h {
            Happening::Chance { q, has_servers } => match next_start(q, self, has_servers) {
                Start::Run(id) => Control { running: Some(id), ..self },
                _ => self,
            },
            Happening::Over => Control { running: None, ..self },
            Happening::Pause => Control { paused: true, ..self },
            Happening::Resume => Control { paused: false, ..self },
        }
    }

    /// What runs after a list of things happened.
    pub open spec fn after_all(self, hs: Seq<Happening>) -> Control
        decreases hs.len(),
    {
        if hs.len() == 0 {
            self
        } else {
            self.after_all(hs.drop_last()).after(hs.last())
        }
    }

    /// Nothing runs, and downloads are not stopped.
    pub fn new() -> (r: Self)
        ensures
            r == (Control { running: None, paused: false }),
    {
        Control { running: None, paused: false }
    }

    /// Notes that the run that was going on is over.
    pub fn run_over(&mut self)
        ensures
            *final(self) == old(self).after(Happening::Over),
    {
        self.running = None;
    }
}

/// Between a pause and the next resumption no run starts: what runs is what ran before, and
/// once that is over nothing does.
pub proof fn nothing_starts_while_paused(c: Control, hs: Seq<Happening>)
    requires
        c.paused,
        forall|i: int| 0 <= i < hs.len() ==> !((#[trigger] hs[i]) is Resume),
    ensures
        c.after_all(hs).paused,
        c.after_all(hs).running == c.running || c.after_all(hs).running is None,
        c.running is None ==> c.after_all(hs).running is None,
    decreases hs.len(),
{
    if hs.len() > 0 {
        let before = hs.drop_last();
        assert forall|i: int| 0 <= i < before.len() implies !((#[trigger] before[i]) is Resume) by {
            assert(before[i] == hs[i]);
        }
        nothing_starts_while_paused(c, before);
        assert(!(hs[hs.len() - 1] is Resume));
    }
}

/// Starts the next job, unless downloads are stopped or a download runs.
pub fn try_start_next_job(q: &mut QueueManager, c: &mut Control, has_servers: bool) -> (r: Start)
    requires
        old(q)@.is_valid(),
    ensures
        final(q)@.is_valid(),
        r == next_start(old(q)@, *old(c), has_servers),
        *final(c) == old(c).after(Happening::Chance { q: old(q)@, has_servers }),
        final(q)@ == match r {
            Start::Run(id) => with_slot(old(q)@, id as int),
            _ => old(q)@,
        },
        old(c).paused ==> r == Start::Nothing && final(q)@ == old(q)@,
{
    if c.paused || c.running.is_some() {
        return Start::Nothing;
    }
    proof {
        lemma_next_is_queued(q@);
    }
    match q.next_queued_job() {
        None => Start::Nothing,
        Some(job) => {
            if !has_servers {
                return match q.current_downloading_job() {
                    Some(_) => Start::Nothing,
                    None => Start::NoServers,
                };
            }
            if q.claim_download_slot(job.id) {
                c.running = Some(job.id);
                Start::Run(job.id)
            } else {
                Start::Nothing
            }
        },
    }
}

/// How a run ended.
#[derive(Debug, Clone, Copy, PartialEq, Eq, Structural)]
pub enum RunEnd {
    /// It went through; the engine has set the state of the job.
    Finished,
    /// It was stopped.
    Cancelled,
    /// It failed.
    Failed,
}

/// What follows from the end of a run.
#[derive(Debug, Clone, Copy, PartialEq, Eq, Structural)]
pub struct AfterRun {
    /// The state to report, if any.
    pub report: Option<JobState>,
    /// Whether the download is checked and unpacked.
    pub post_process: bool,
}

/// The state of a job after a run: complete if the job is gone.
pub open spec fn ended_state(q: QueueView, job_id: int) -> JobState {
    match job_with(q, job_id) {
        Some(j) => j.state,
        None => JobState::Complete,
    }
}

/// The job with an id.
pub open spec fn job_with(q: QueueView, id: int) -> Option<JobView> {
    if q.has_job(id) {
        Some(q.jobs[choose|i: int| 0 <= i < q.jobs.len() && (#[trigger] q.jobs[i]).id == id])
    } else {
        None
    }
}

/// The queue once the failed segments of a job are to be tried again.
pub open spec fn with_retries(q: QueueView, job_id: int) -> QueueView {
    q.with_segments(
        |s: SegmentView| s.state == SegmentState::Failed && q.is_of_job(s, job_id),
        SegmentState::Pending,
    )
}

/// The queue after the end of a run.
pub open spec fn after_run(q: QueueView, job_id: int, end: RunEnd) -> QueueView {
    match end {
        RunEnd::Finished => q,
        RunEnd::Cancelled => with_retries(q.released(job_id, JobState::Queued), job_id),
        RunEnd::Failed => q.released(job_id, JobState::Failed),
    }
}

/// Settles the end of a run: a job that was stopped waits again, with its failed segments to
/// be tried again; one that failed is marked so. A complete job is checked and unpacked, if
/// that is wanted.
pub fn settle_run(q: &mut QueueManager, job_id: i64, end: RunEnd, auto_post_process: bool) -> (r:
    AfterRun)
    requires
        old(q)@.is_valid(),
    ensures
        final(q)@.is_valid(),
        final(q)@ == after_run(old(q)@, job_id as int, end),
        r == match end {
            RunEnd::Finished => AfterRun {
                report: Some(ended_state(old(q)@, job_id as int)),
                post_process: auto_post_process && job_with(old(q)@, job_id as int) is Some
                    && ended_state(old(q)@, job_id as int) == JobState::Complete,
            },
            RunEnd::Cancelled => AfterRun { report: Some(JobState::Queued), post_process: false },
            RunEnd::Failed => AfterRun { report: None, post_process: false },
        },
{
    match end {
        RunEnd::Finished => {
            let found = q.get_job(job_id);
            match found {
                Ok(job) => {
                    proof {
                        lemma_job_with(q@, job_id as int, job@);
                    }
                    AfterRun {
                        report: Some(job.state),
                        post_process: auto_post_process && job.state == JobState::Complete,
                    }
                },
                Err(_) => AfterRun { report: Some(JobState::Complete), post_process: false },
            }
        },
        RunEnd::Cancelled => {
            q.release_download_slot(job_id, JobState::Queued);
            let _ = q.reset_failed_segments(job_id);
            AfterRun { report: Some(JobState::Queued), post_process: false }
        },
        RunEnd::Failed => {
            q.release_download_slot(job_id, JobState::Failed);
            AfterRun { report: None, post_process: false }
        },
    }
}

proof fn lemma_job_with(q: QueueView, id: int, job: JobView)
    requires
        q.is_valid(),
        q.jobs.contains(job),
        job.id == id,
        q.has_job(id),
    ensures
        job_with(q, id) == Some(job),
{
    let k = choose|k: int| 0 <= k < q.jobs.len() && q.jobs[k] == job;
    assert(q.jobs[k].id == id);
    let c = choose|i: int| 0 <= i < q.jobs.len() && (#[trigger] q.jobs[i]).id == id;
    assert(queue::job_ids(q.jobs)[k] == id && queue::job_ids(q.jobs)[c] == id);
}

/// Takes up a job again: its failed segments are to be tried again, it waits, and downloads go
/// on.
pub fn resume_job(q: &mut QueueManager, c: &mut Control, job_id: i64)
    requires
        old(q)@.is_valid(),
    ensures
        final(q)@.is_valid(),
        final(q)@ == with_retries(old(q)@, job_id as int).with_job(
            job_id as int,
            |j: JobView| JobView { state: JobState::Queued, ..j },
        ),
        *final(c) == old(c).after(Happening::Resume),
{
    let _ = q.reset_failed_segments(job_id);
    let set = q.set_job_state(job_id, JobState::Queued);
    assert(set is Ok);
    c.paused = false;
}

/// A job that was stopped waits again: no job holds the slot then.
pub proof fn stopped_job_frees_slot(q: QueueView, job_id: int, end: RunEnd)
    requires
        q.is_valid(),
        !q.taken_by_other(job_id),
        end != RunEnd::Finished,
    ensures
        !after_run(q, job_id, end).is_downloading(),
{
    let r = after_run(q, job_id, end);
    assert forall|i: int| 0 <= i < r.jobs.len() implies (#[trigger] r.jobs[i]).state
        != JobState::Downloading by {
        if q.jobs[i].id != job_id {
            assert(q.jobs[i].state != JobState::Downloading);
        }
    }
}

/// Stops a job; no run starts then until downloads go on. The answer says whether the run that
/// is going on is to be stopped: it is, if it is the run of this job, and then [`settle_run`]
/// follows. Another job waits again.
pub fn pause_job(q: &mut QueueManager, c: &mut Control, job_id: i64) -> (r: bool)
    requires
        old(q)@.is_valid(),
    ensures
        final(q)@.is_valid(),
        r == (old(c).running == Some(job_id)),
        final(q)@ == if r {
            old(q)@
        } else {
            old(q)@.with_job(job_id as int, |j: JobView| JobView { state: JobState::Queued, ..j })
        },
        *final(c) == old(c).after(Happening::Pause),
{
    c.paused = true;
    if is_running(c.running, job_id) {
        return true;
    }
    let set = q.set_job_state(job_id, JobState::Queued);
    assert(set is Ok);
    false
}

/// Stops downloads; no run starts then until they go on. The answer says whether there is a run
/// to be stopped, and then [`settle_run`] follows.
pub fn pause_engine(c: &mut Control) -> (r: bool)
    ensures
        r == (old(c).running is Some),
        *final(c) == old(c).after(Happening::Pause),
{
    c.paused = true;
    c.running.is_some()
}

/// Lets downloads go on.
pub fn resume_engine(c: &mut Control)
    ensures
        *final(c) == old(c).after(Happening::Resume),
{
    c.paused = false;
}

/// The order of the jobs once a job has changed places with the one above or below it; none
/// where there is no such job.
pub open spec fn moved_order(q: QueueView, job_id: int, up: bool) -> Option<Seq<int>> {
    let ids = queue::job_ids(q.jobs_in_order());
    let i = ids.index_of(job_id);
    let k = if up {
        i - 1
    } else {
        i + 1
    };
    if ids.contains(job_id) && 0 <= k < ids.len() {
        Some(ids.update(i, ids[k]).update(k, job_id))
    } else {
        None
    }
}

proof fn lemma_moved_order(q: QueueView, i: int, k: int)
    requires
        q.is_valid(),
        0 <= i < q.jobs.len(),
        0 <= k < q.jobs.len(),
        k == i - 1 || k == i + 1,
    ensures
        ({
            let ids = queue::job_ids(q.jobs_in_order());
            &&& ids.contains(ids[i]) && ids.index_of(ids[i]) == i
            &&& q.names_all_jobs(ids.update(i, ids[k]).update(k, ids[i]))
        }),
{
    queue::order_names_all_jobs(q);
    let ids = queue::job_ids(q.jobs_in_order());
    let new = ids.update(i, ids[k]).update(k, ids[i]);
    let at = ids.index_of(ids[i]);
    assert(ids[at] == ids[i]);
    assert forall|m: int| 0 <= m < q.jobs.len() implies new.contains(
        (#[trigger] q.jobs[m]).id,
    ) by {
        assert(ids.contains(q.jobs[m].id));
        let p = choose|p: int| 0 <= p < ids.len() && ids[p] == q.jobs[m].id;
        assert(new[if p == i {
            k
        } else if p == k {
            i
        } else {
            p
        }] == q.jobs[m].id);
    }
}

/// Moves a job up or down by one place in the queue: the job and the one above or below it
/// change places. Nothing changes where there is none.
pub fn move_job(q: &mut QueueManager, job_id: i64, up: bool)
    requires
        old(q)@.is_valid(),
    ensures
        final(q)@.is_valid(),
        match moved_order(old(q)@, job_id as int, up) {
            Some(ids) => final(q)@ == old(q)@.ranked(ids) && queue::job_ids(
                final(q)@.jobs_in_order(),
            ) == ids,
            None => final(q)@ == old(q)@,
        },
{
    let jobs = q.list_jobs();
    let ghost before = q@;
    let ghost ids = queue::job_ids(before.jobs_in_order());
    let n: usize = jobs.len();
    proof {
        queue::order_names_all_jobs(before);
        assert forall|k: int| 0 <= k < n implies #[trigger] ids[k] == jobs@[k].id by {
            assert(order::views(jobs@)[k] == jobs@[k]@);
        }
        queue::ids_outnumber_jobs(before);
        if n > 0 {
            assert(ids.contains(before.jobs[n - 1].id));
            let k = choose|k: int| 0 <= k < ids.len() && ids[k] == before.jobs[n - 1].id;
            assert(ids[k] == jobs@[k].id);
        }
        assert(n <= i64::MAX);
    }
    let mut i: usize = 0;
    while i < n && jobs[i].id != job_id
        invariant
            i <= n,
            n == jobs.len(),
            n == ids.len(),
            forall|k: int| 0 <= k < n ==> #[trigger] ids[k] == jobs@[k].id,
            forall|k: int| 0 <= k < i ==> #[trigger] ids[k] != job_id,
        decreases n - i,
    {
        i += 1;
    }
    if i == n {
        assert(!ids.contains(job_id as int));
        return;
    }
    assert(ids[i as int] == job_id);
    assert(ids.contains(job_id as int) && ids[ids.index_of(job_id as int)] == job_id);
    assert(ids.index_of(job_id as int) == i);
    if (up && i == 0) || (!up && i == n - 1) {
        return;
    }
    let k: usize = if up {
        i - 1
    } else {
        i + 1
    };
    proof {
        lemma_moved_order(before, i as int, k as int);
    }
    let ghost new = ids.update(i as int, ids[k as int]).update(k as int, job_id as int);
    let other: i64 = jobs[k].id;
    let mut m: usize = 0;
    assert(new.take(0) =~= Seq::empty());
    while m < n
        invariant
            m <= n <= i64::MAX,
            n == jobs.len(),
            n == ids.len(),
            n == new.len(),
            i < n,
            k < n,
            i != k,
            forall|k: int| 0 <= k < n ==> #[trigger] ids[k] == jobs@[k].id,
            ids[i as int] == job_id,
            other == ids[k as int],
            new == ids.update(i as int, ids[k as int]).update(k as int, job_id as int),
            q@.is_valid(),
            q@ == before.ranked(new.take(m as int)),
        decreases n - m,
    {
        let id: i64 = if m == i {
            other
        } else if m == k {
            job_id
        } else {
            jobs[m].id
        };
        proof {
            let t = new.take(m + 1);
            assert(ids[m as int] == jobs@[m as int].id);
            assert(t.drop_last() =~= new.take(m as int));
            assert(t.last() == id);
        }
        q.set_job_priority(id, m as i64);
        m += 1;
    }
    proof {
        assert(new.take(n as int) =~= new);
        queue::ranked_jobs_come_in_order(before, new);
    }
}

/// Removes a job. The answer says whether the run that is going on is to be stopped.
pub fn delete_job(q: &mut QueueManager, c: &Control, job_id: i64) -> (r: bool)
    requires
        old(q)@.is_valid(),
    ensures
        final(q)@.is_valid(),
        r == (c.running == Some(job_id)),
        final(q)@ == old(q)@.without(|j: JobView| j.id == job_id),
{
    q.delete_job(job_id);
    is_running(c.running, job_id)
}

fn is_running(running: Option<i64>, job_id: i64) -> (r: bool)
    ensures
        r == (running == Some(job_id)),
{
    match running {
        Some(id) => id == job_id,
        None => false,
    }
}

/// The password that a release is unpacked with: the one that was given, or else the first
/// that the NZB file names.
pub open spec fn release_password(nzb: Nzb, given: Option<Seq<char>>) -> Option<Seq<char>> {
    match given {
        Some(p) => Some(p),
        None => if nzb.passwords@.len() > 0 {
            Some(nzb.passwords@[0]@)
        } else {
            None
        },
    }
}

/// The queue with a job for a release. The job keeps the password of the release.
pub open spec fn enqueued(
    q: QueueView,
    nzb: Nzb,
    output_dir: Seq<char>,
    given: Option<Seq<char>>,
) -> QueueView {
    let id = q.next_job;
    q.with_new_job(
        queue::new_job(id, nzb.job_name(None), output_dir, 0, JobState::Queued, nzb.files@),
    ).with_release(id, nzb.files@).with_job(
        id,
        |j: JobView| JobView { archive_password: release_password(nzb, given), ..j },
    )
}

/// Puts a release into the queue. The id of the job is returned.
pub fn enqueue(q: &mut QueueManager, nzb: &Nzb, output_dir: &str, given: Option<String>) -> (r:
    Result<i64, QueueError>)
    requires
        old(q)@.is_valid(),
        nzb::segments_of(nzb.files@) <= u32::MAX,
        nzb::bytes_of(nzb.files@) <= u64::MAX,
    ensures
        final(q)@.is_valid(),
        match r {
            Ok(id) => id == old(q)@.next_job && final(q)@ == enqueued(
                old(q)@,
                *nzb,
                output_dir@,
                types::text_of(given),
            ),
            Err(e) => e == QueueError::Full && final(q)@ == old(q)@,
        },
        r is Ok == (old(q)@.next_job < i64::MAX && old(q)@.has_room(nzb.files@)),
{
    let ghost password = release_password(*nzb, types::text_of(given));
    match q.add_job(nzb, output_dir, 0, None) {
        Ok(id) => {
            let chosen = nzb.password(given);
            let ghost added = q@;
            match &chosen {
                Some(p) => {
                    q.set_job_archive_password(id, Some(p.as_str()));
                },
                None => {
                    q.set_job_archive_password(id, None);
                },
            }
            assert(q@ == added.with_job(
                id as int,
                |j: JobView| JobView { archive_password: password, ..j },
            ));
            Ok(id)
        },
        Err(e) => Err(e),
    }
}

/// How the files of a complete job are checked and unpacked: by the settings, with the
/// password of the job and the category that it was added under.
pub fn post_process_config(
    job: &QueueJob,
    category: Option<String>,
    completed_dir: &str,
    defaults: &PostProcessDefaults,
) -> (r: PostProcessConfig)
    ensures
        r.download_dir@ == job@.output_dir,
        r.completed_dir@ == completed_dir@,
        types::text_of(r.category) == types::text_of(category),
        types::text_of(r.archive_password) == job@.archive_password,
        r.cleanup_archives == defaults.cleanup_archives,
        r.skip_verify == defaults.skip_verify,
{
    PostProcessConfig {
        download_dir: job.output_dir.clone(),
        completed_dir: completed_dir.to_owned(),
        category,
        cleanup_archives: defaults.cleanup_archives,
        archive_password: copy_text(&job.archive_password),
        skip_verify: defaults.skip_verify,
    }
}

/// Why an NZB file was not fetched: a status other than success.
pub open spec fn fetch_refusal(status: u16) -> Option<Seq<char>> {
    if 200 <= status <= 299 {
        None
    } else {
        Some("NZB fetch failed: HTTP "@ + newznab::status_text(status)->0)
    }
}

/// Why an NZB file was not fetched, by the status of the answer.
pub fn refuse_fetch(status: u16) -> (r: Option<String>)
    requires
        100 <= status <= 999,
    ensures
        types::text_of(r) == fetch_refusal(status),
{
    if 200 <= status && status <= 299 {
        return None;
    }
    match describe_status(status) {
        Some(shown) => Some(concat("NZB fetch failed: HTTP ", &shown)),
        None => None,
    }
}

/// Counts the bytes of the running download.
#[derive(Debug, Clone, Copy, PartialEq, Eq, Structural)]
pub struct ByteCount {
    /// Arrived since the last tick.
    pub fresh: u64,
    /// Arrived before the last tick.
    pub downloaded: u64,
    /// Size of the download.
    pub total: u64,
}

impl ByteCount {
    /// A count for a new download.
    pub fn start(total: u64) -> (r: Self)
        ensures
            r == (ByteCount { fresh: 0, downloaded: 0, total }),
    {
        ByteCount { fresh: 0, downloaded: 0, total }
    }

    /// Counts bytes that arrived. The count wraps round.
    pub fn add_bytes(&mut self, bytes: u64)
        ensures
            *final(self) == (ByteCount {
                fresh: old(self).fresh.wrapping_add(bytes),
                ..*old(self)
            }),
    {
        self.fresh = self.fresh.wrapping_add(bytes);
    }

    /// Counts what a report of a run says has arrived.
    pub fn note(&mut self, event: &ProgressEvent)
        ensures
            *final(self) == match event@ {
                ProgressView::SegmentDone { bytes, .. } => ByteCount {
                    fresh: old(self).fresh.wrapping_add(bytes),
                    ..*old(self)
                },
                _ => *old(self),
            },
    {
        match event {
            ProgressEvent::SegmentDone { bytes, .. } => {
                self.add_bytes(*bytes);
            },
            _ => {},
        }
    }

    /// Ends a tick, and gives the bytes that arrived during it.
    pub fn tick(&mut self) -> (r: u64)
        ensures
            r == old(self).fresh,
            *final(self) == (ByteCount {
                fresh: 0,
                downloaded: old(self).downloaded.wrapping_add(old(self).fresh),
                ..*old(self)
            }),
    {
        let fresh: u64 = self.fresh;
        self.downloaded = self.downloaded.wrapping_add(fresh);
        self.fresh = 0;
        fresh
    }
}

/// The address of an API ends in `/api`: that is put behind an address that does not end in it,
/// and slashes at the end do not count.
pub proof fn api_is_put_behind_addresses(url: Seq<char>)
    ensures
        url.len() > 0 && url.last() != '/' && text::has_suffix(url, "/api"@) ==> api_url(url)
            == url,
        url.len() > 0 && url.last() != '/' && !text::has_suffix(url, "/api"@) ==> api_url(url)
            == url + "/api"@,
        api_url(url.push('/')) == api_url(url),
{
    assert(url.push('/').drop_last() =~= url);
}

/// A key is added to addresses that start with the API of an indexer, and to no others: that of
/// the first such indexer, unless the address has a key already.
pub proof fn keys_go_to_their_indexers(url: Seq<char>, indexers: Seq<IndexerConfigView>, k: int)
    ensures
        (forall|i: int|
            0 <= i < indexers.len() ==> !text::has_prefix(
                url,
                api_url((#[trigger] indexers[i]).url),
            )) ==> keyed_url(url, indexers) == url,
        0 <= k < indexers.len() && text::has_prefix(url, api_url(indexers[k].url)) && (forall|
            i: int,
        |
            0 <= i < k ==> !text::has_prefix(url, api_url((#[trigger] indexers[i]).url))) ==> {
            let r = keyed_url(url, indexers);
            &&& text::has_infix(url, "apikey="@) ==> r == url
            &&& !text::has_infix(url, "apikey="@) && text::has_infix(url, "?"@) ==> r == url + "&"@
                + "apikey="@ + indexers[k].api_key
            &&& !text::has_infix(url, "apikey="@) && !text::has_infix(url, "?"@) ==> r == url
                + "?"@ + "apikey="@ + indexers[k].api_key
        },
    decreases indexers.len(),
{
    if indexers.len() > 0 && !text::has_prefix(url, api_url(indexers[0].url)) {
        let rest = indexers.skip(1);
        assert forall|i: int| 0 <= i < rest.len() implies #[trigger] rest[i] == indexers[i
            + 1] by {}
        keys_go_to_their_indexers(url, rest, k - 1);
    }
}

/// An NZB file starts, behind white space, with an XML declaration or with its root element;
/// anything else is none.
pub proof fn nzb_files_start_with_markup(white: char, t: Seq<char>)
    ensures
        text::is_white(white) ==> starts_like_nzb(seq![white] + t) == starts_like_nzb(t),
        starts_like_nzb("<?xml"@ + t),
        starts_like_nzb("<nzb"@ + t),
        t.len() > 0 && !text::is_white(t[0]) && t[0] != '<' ==> !starts_like_nzb(t),
        t.len() > 1 && t[0] == '<' && t[1] != '?' && t[1] != 'n' ==> !starts_like_nzb(t),
        t.len() < 4 ==> !starts_like_nzb(t),
{
    reveal_strlit("<?xml");
    reveal_strlit("<nzb");
    let a = seq![white] + t;
    assert(a[0] == white);
    assert(a.skip(1) =~= t);
    assert(("<?xml"@ + t)[0] == '<');
    assert(("<nzb"@ + t)[0] == '<');
    text::affixes_are_pieces("<?xml"@ + t, "<?xml"@, t);
    text::affixes_are_pieces("<nzb"@ + t, "<nzb"@, t);
    let n = text::trimming_start_drops_white(t);
    let r = text::trimmed_start(t);
    text::affixes_are_pieces(r, "<?xml"@, t);
    text::affixes_are_pieces(r, "<nzb"@, t);
    assert("<?xml"@.len() == 5 && "<?xml"@[0] == '<' && "<?xml"@[1] == '?');
    assert("<nzb"@.len() == 4 && "<nzb"@[0] == '<' && "<nzb"@[1] == 'n');
    if text::has_prefix(r, "<?xml"@) {
        assert(r[0] == '<' && r[1] == '?');
    }
    if text::has_prefix(r, "<nzb"@) {
        assert(r[0] == '<' && r[1] == 'n');
    }
}

/// A directory is named by the letters, digits, dots, hyphens and underscores of a title, in their
/// order; without any of them it has a fixed name.
pub proof fn directories_keep_safe_characters(a: Seq<char>, c: char, b: Seq<char>)
    ensures
        !is_safe_char(c) ==> directory_for(a + seq![c] + b) == directory_for(a + b),
        a.len() > 0 && (forall|i: int| 0 <= i < a.len() ==> is_safe_char(#[trigger] a[i]))
            ==> directory_for(a) == a,
        directory_for(Seq::empty()) == "nobz-download"@,
        (c as u32) < 128 ==> (is_safe_char(c) <==> ('a' as u32 <= c as u32 <= 'z' as u32
            || 'A' as u32 <= c as u32 <= 'Z' as u32 || '0' as u32 <= c as u32 <= '9' as u32 || c
            == '.' || c == '-' || c == '_')),
{
    let keep = |x: char| is_safe_char(x);
    Seq::filter_distributes_over_add(a + seq![c], b, keep);
    Seq::filter_distributes_over_add(a, seq![c], keep);
    Seq::filter_distributes_over_add(a, b, keep);
    if !is_safe_char(c) {
        order::filter_of_uniform(seq![c], keep, false);
        assert((a + seq![c] + b).filter(keep) =~= (a + b).filter(keep));
    }
    if forall|i: int| 0 <= i < a.len() ==> is_safe_char(#[trigger] a[i]) {
        order::filter_of_uniform(a, keep, true);
    }
    order::filter_of_uniform(Seq::<char>::empty(), keep, true);
}

/// The job that starts is, of those that wait, the one with the lowest priority, and among equals
/// the one that was added first. None starts while one downloads, while a run goes on or while
/// downloads are stopped.
pub proof fn lowest_priority_starts(q: QueueView, c: Control, has_servers: bool, i: int)
    requires
        q.is_valid(),
        0 <= i < q.jobs.len(),
    ensures
        c.paused || c.running is Some || q.is_downloading() ==> next_start(q, c, has_servers)
            == Start::Nothing,
        (forall|k: int|
            0 <= k < q.jobs.len() ==> (#[trigger] q.jobs[k]).state != JobState::Queued)
            ==> next_start(q, c, has_servers) == Start::Nothing,
        !c.paused && c.running is None && !q.is_downloading() && q.jobs[i].state == JobState::Queued
            && !has_servers ==> next_start(q, c, has_servers) == Start::NoServers,
        !c.paused && c.running is None && !q.is_downloading() && q.jobs[i].state == JobState::Queued
            && has_servers && (forall|k: int|
            0 <= k < q.jobs.len() && (#[trigger] q.jobs[k]).state == JobState::Queued ==> (
            q.jobs[i].priority < q.jobs[k].priority || (q.jobs[i].priority == q.jobs[k].priority
                && q.jobs[i].id <= q.jobs[k].id))) ==> next_start(q, c, has_servers) == Start::Run(
            q.jobs[i].id as i64,
        ),
{
    let r = q.jobs_in_order();
    queue::jobs_are_listed_by_priority(q, 0, 0, q.jobs[i]);
    assert(q.jobs.contains(q.jobs[i]));
    let at = choose|at: int| 0 <= at < r.len() && r[at] == q.jobs[i];
    if forall|k: int| 0 <= k < q.jobs.len() ==> (#[trigger] q.jobs[k]).state != JobState::Queued {
        assert forall|k: int| 0 <= k < r.len() implies (#[trigger] r[k]).state
            != JobState::Queued by {
            queue::jobs_are_listed_by_priority(q, 0, 0, r[k]);
            assert(r.contains(r[k]));
            let m = choose|m: int| 0 <= m < q.jobs.len() && q.jobs[m] == r[k];
        }
        queue::first_waiting_job_is_next(r, 0);
    }
    if q.jobs[i].state == JobState::Queued {
        lemma_some_queued(r, at);
        if forall|k: int|
            0 <= k < q.jobs.len() && (#[trigger] q.jobs[k]).state == JobState::Queued ==> (
            q.jobs[i].priority < q.jobs[k].priority || (q.jobs[i].priority == q.jobs[k].priority
                && q.jobs[i].id <= q.jobs[k].id)) {
            assert forall|k: int| 0 <= k < at implies (#[trigger] r[k]).state
                != JobState::Queued by {
                queue::jobs_are_listed_by_priority(q, k, at, r[k]);
                assert(r.contains(r[k]));
                let m = choose|m: int| 0 <= m < q.jobs.len() && q.jobs[m] == r[k];
            }
            queue::first_waiting_job_is_next(r, at);
        }
    }
}

proof fn lemma_some_queued(jobs: Seq<JobView>, i: int)
    requires
        0 <= i < jobs.len(),
        jobs[i].state == JobState::Queued,
    ensures
        queue::first_queued(jobs) is Some,
    decreases jobs.len(),
{
    if jobs[0].state != JobState::Queued {
        assert(jobs.skip(1)[i - 1] == jobs[i]);
        lemma_some_queued(jobs.skip(1), i - 1);
    }
}

/// What happens changes the run or the stop, never both: a run begins where a job starts and is
/// over when it ends; a pause stops downloads and a resume lets them go on.
pub proof fn happenings_change_one_thing(c: Control, q: QueueView, has_servers: bool)
    ensures
        c.after(Happening::Over) == (Control { running: None, paused: c.paused }),
        c.after(Happening::Pause) == (Control { running: c.running, paused: true }),
        c.after(Happening::Resume) == (Control { running: c.running, paused: false }),
        ({
            let r = c.after(Happening::Chance { q, has_servers });
            &&& r.paused == c.paused
            &&& next_start(q, c, has_servers) is Run ==> r.running == Some(
                next_start(q, c, has_servers)->Run_0,
            )
            &&& !(next_start(q, c, has_servers) is Run) ==> r.running == c.running
        }),
{
}

/// A job is found by its id; one that is gone counts as complete when its run ends.
pub proof fn jobs_are_found_by_id(q: QueueView, i: int, id: int)
    requires
        q.is_valid(),
    ensures
        0 <= i < q.jobs.len() ==> job_with(q, q.jobs[i].id) == Some(q.jobs[i]) && ended_state(
            q,
            q.jobs[i].id,
        ) == q.jobs[i].state,
        (forall|k: int| 0 <= k < q.jobs.len() ==> (#[trigger] q.jobs[k]).id != id) ==> job_with(
            q,
            id,
        ) is None && ended_state(q, id) == JobState::Complete,
{
    let ids = queue::job_ids(q.jobs);
    if 0 <= i < q.jobs.len() {
        let x = q.jobs[i].id;
        assert(ids[i] == x);
        let k = choose|k: int| 0 <= k < q.jobs.len() && (#[trigger] q.jobs[k]).id == x;
        assert(ids[k] == x);
        if k < i {
            assert(ids[k] < ids[i]);
        } else if i < k {
            assert(ids[i] < ids[k]);
        }
    }
    if q.has_job(id) {
        let k = choose|k: int| 0 <= k < ids.len() && ids[k] == id;
        assert(q.jobs[k].id == id);
    }
}

/// A run that went through leaves the queue as it is. A run that was stopped puts its job back and
/// gives the segments of the job that failed another try; a run that failed leaves its job failed
/// and touches no segment.
pub proof fn ends_of_runs_decide(q: QueueView, job_id: int, i: int, k: int)
    requires
        0 <= i < q.jobs.len(),
        0 <= k < q.segments.len(),
    ensures
        after_run(q, job_id, RunEnd::Finished) == q,
        ({
            let r = after_run(q, job_id, RunEnd::Cancelled);
            let held = q.jobs[i].id == job_id && q.jobs[i].state == JobState::Downloading;
            let own = exists|f: int|
                0 <= f < q.files.len() && (#[trigger] q.files[f]).id == q.segments[k].file_id
                    && q.files[f].job_id == job_id;
            &&& held ==> r.jobs[i] == (JobView { state: JobState::Queued, ..q.jobs[i] })
            &&& !held ==> r.jobs[i] == q.jobs[i]
            &&& own && q.segments[k].state == SegmentState::Failed ==> r.segments[k] == (
            SegmentView { state: SegmentState::Pending, ..q.segments[k] })
            &&& !own || q.segments[k].state != SegmentState::Failed ==> r.segments[k]
                == q.segments[k]
            &&& r.files == q.files
        }),
        ({
            let r = after_run(q, job_id, RunEnd::Failed);
            let held = q.jobs[i].id == job_id && q.jobs[i].state == JobState::Downloading;
            &&& held ==> r.jobs[i] == (JobView { state: JobState::Failed, ..q.jobs[i] })
            &&& !held ==> r.jobs[i] == q.jobs[i]
            &&& r.segments == q.segments && r.files == q.files
        }),
{
    let p = q.released(job_id, JobState::Queued);
    assert(p.files == q.files && p.segments == q.segments);
    assert(p.is_of_job(q.segments[k], job_id) == q.is_of_job(q.segments[k], job_id));
}

/// A job that is moved changes places with the one before or behind it, and no other moves; the
/// first cannot go up nor the last down.
pub proof fn moved_jobs_change_places(q: QueueView, i: int, k: int)
    requires
        q.is_valid(),
        0 <= i < q.jobs.len(),
    ensures
        ({
            let ids = queue::job_ids(q.jobs_in_order());
            let up = moved_order(q, ids[i], true);
            let down = moved_order(q, ids[i], false);
            &&& ids.len() == q.jobs.len()
            &&& up is Some <==> 0 < i
            &&& 0 < i ==> up->0.len() == ids.len() && up->0[i - 1] == ids[i] && up->0[i] == ids[i
                - 1]
            &&& 0 < i && 0 <= k < ids.len() && k != i && k != i - 1 ==> up->0[k] == ids[k]
            &&& down is Some <==> i < ids.len() - 1
            &&& i < ids.len() - 1 ==> down->0.len() == ids.len() && down->0[i + 1] == ids[i]
                && down->0[i] == ids[i + 1]
            &&& i < ids.len() - 1 && 0 <= k < ids.len() && k != i && k != i + 1 ==> down->0[k]
                == ids[k]
        }),
{
    let ids = queue::job_ids(q.jobs_in_order());
    queue::order_names_all_jobs(q);
    let at = ids.index_of(ids[i]);
    assert(ids.contains(ids[i]));
    assert(0 <= at < ids.len() && ids[at] == ids[i]);
}

/// The password of a release is the one that is given, or else the first that it brings.
pub proof fn given_passwords_come_first(nzb: Nzb, p: Seq<char>)
    ensures
        release_password(nzb, Some(p)) == Some(p),
        nzb.passwords@.len() > 0 ==> release_password(nzb, None) == Some(nzb.passwords@[0]@),
        nzb.passwords@.len() == 0 ==> release_password(nzb, None) is None,
{
}

/// A release that is put into the queue becomes its last job: it waits, has the name of the
/// release, the given directory and its password; the other jobs stay.
pub proof fn releases_become_waiting_jobs(
    q: QueueView,
    nzb: Nzb,
    output_dir: Seq<char>,
    given: Option<Seq<char>>,
    i: int,
)
    requires
        q.is_valid(),
    ensures
        ({
            let r = enqueued(q, nzb, output_dir, given);
            let j = r.jobs[q.jobs.len() as int];
            &&& r.jobs.len() == q.jobs.len() + 1
            &&& 0 <= i < q.jobs.len() ==> r.jobs[i] == q.jobs[i]
            &&& j.id == q.next_job && j.state == JobState::Queued && j.priority == 0
            &&& j.name == nzb.job_name(None) && j.output_dir == output_dir
            &&& j.archive_password == release_password(nzb, given)
            &&& r.next_job == q.next_job + 1
            &&& r.files.len() == q.files.len() + nzb.files@.len()
        }),
{
    let id = q.next_job;
    let job = queue::new_job(id, nzb.job_name(None), output_dir, 0, JobState::Queued, nzb.files@);
    let a = q.with_new_job(job);
    let b = a.with_release(id, nzb.files@);
    lemma_release_keeps_jobs(a, id, nzb.files@);
    if 0 <= i < q.jobs.len() {
        assert(queue::job_ids(q.jobs)[i] < q.next_job);
        assert(b.jobs[i] == q.jobs[i]);
    }
    assert(b.jobs[q.jobs.len() as int] == job);
}

proof fn lemma_release_keeps_jobs(q: QueueView, id: int, files: Seq<nzb::NzbFile>)
    ensures
        q.with_release(id, files).jobs == q.jobs,
        q.with_release(id, files).next_job == q.next_job,
        q.with_release(id, files).files.len() == q.files.len() + files.len(),
    decreases files.len(),
{
    if files.len() > 0 {
        lemma_release_keeps_jobs(q, id, files.drop_last());
    }
}

/// A fetch is refused unless its status is in the two hundreds.
pub proof fn only_success_is_fetched(status: u16)
    ensures
        fetch_refusal(status) is None <==> 200 <= status <= 299,
        fetch_refusal(status) is Some ==> text::has_prefix(
            fetch_refusal(status)->0,
            "NZB fetch failed: HTTP "@,
        ) && text::has_suffix(fetch_refusal(status)->0, newznab::status_text(status)->0),
{
    let shown = newznab::status_text(status)->0;
    text::affixes_are_pieces(shown, "NZB fetch failed: HTTP "@, shown);
    text::affixes_are_pieces(shown, shown, "NZB fetch failed: HTTP "@);
}

/// The job that gets the slot downloads; the others, and all files and segments, stay.
pub proof fn slots_make_jobs_download(q: QueueView, id: int, i: int)
    requires
        0 <= i < q.jobs.len(),
    ensures
        q.jobs[i].id == id ==> with_slot(q, id).jobs[i] == (JobView {
            state: JobState::Downloading,
            ..q.jobs[i]
        }),
        q.jobs[i].id != id ==> with_slot(q, id).jobs[i] == q.jobs[i],
        with_slot(q, id).files == q.files,
        with_slot(q, id).segments == q.segments,
{
}

} // verus!
