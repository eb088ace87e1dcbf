//! State of the queue tab, and which tab is shown.
use std::collections::HashSet;
use vstd::prelude::*;

use crate::backend::{BackendCmd, BackendEvent, BackendEventView, JobFileDetail};
use crate::order;
use crate::postprocess::{PostProcessReport, ReportView};
use crate::queue::{JobState, JobView, QueueJob, StatsView};

verus! {

broadcast use vstd::std_specs::hash::group_hash_axioms;

/// State of the queue tab.
#[derive(Debug)]
pub struct QueueState {
    pub jobs: Vec<QueueJob>,
    /// Bytes that the running download has.
    pub current_downloaded: u64,
    /// Size of the running download.
    pub current_total: u64,
    /// The running download.
    pub current_job_id: Option<i64>,
    /// Whether downloads are stopped.
    pub engine_paused: bool,
    /// The job that is shown.
    pub selected_job: Option<i64>,
    /// The files of the job that is shown.
    pub job_details: Vec<JobFileDetail>,
    /// What was done with complete downloads, oldest first.
    pub pp_reports: Vec<(Option<i64>, PostProcessReport)>,
    /// The jobs that are being checked and unpacked.
    pub pp_in_progress: HashSet<i64>,
}

/// What a [`QueueState`] holds.
#[verifier::ext_equal]
pub struct QueueStateView {
    pub jobs: Seq<JobView>,
    pub current_downloaded: u64,
    pub current_total: u64,
    pub current_job_id: Option<i64>,
    pub engine_paused: bool,
    pub selected_job: Option<i64>,
    pub job_details: Seq<StatsView>,
    pub pp_reports: Seq<(Option<i64>, ReportView)>,
    pub pp_in_progress: Set<i64>,
}

/// What a list of reports says.
pub open spec fn report_views(v: Seq<(Option<i64>, PostProcessReport)>) -> Seq<
    (Option<i64>, ReportView),
> {
    v.map_values(|p: (Option<i64>, PostProcessReport)| (p.0, p.1@))
}

impl View for QueueState {
    type V = QueueStateView;

    open spec fn view(&self) -> QueueStateView {
        QueueStateView {
            jobs: order::views(self.jobs@),
            current_downloaded: self.current_downloaded,
            current_total: self.current_total,
            current_job_id: self.current_job_id,
            engine_paused: self.engine_paused,
            selected_job: self.selected_job,
            job_details: order::views(self.job_details@),
            pp_reports: report_views(self.pp_reports@),
            pp_in_progress: self.pp_in_progress@,
        }
    }
}

/// The state before anything is known.
pub open spec fn empty_state() -> QueueStateView {
    QueueStateView {
        jobs: Seq::empty(),
        current_downloaded: 0,
        current_total: 0,
        current_job_id: None,
        engine_paused: false,
        selected_job: None,
        job_details: Seq::empty(),
        pp_reports: Seq::empty(),
        pp_in_progress: Set::empty(),
    }
}

impl Default for QueueState {
    fn default() -> (r: Self)
        ensures
            r@ == empty_state(),
    {
        let r = QueueState {
            jobs: Vec::new(),
            current_downloaded: 0,
            current_total: 0,
            current_job_id: None,
            engine_paused: false,
            selected_job: None,
            job_details: Vec::new(),
            pp_reports: Vec::new(),
            pp_in_progress: HashSet::new(),
        };
        assert(r@ =~= empty_state());
        r
    }
}

/// The first job of a list that downloads.
pub open spec fn downloading_in(jobs: Seq<JobView>) -> Option<int>
    decreases jobs.len(),
{
    if jobs.len() == 0 {
        None
    } else if jobs[0].state == JobState::Downloading {
        Some(jobs[0].id)
    } else {
        downloading_in(jobs.skip(1))
    }
}

fn first_downloading(jobs: &Vec<QueueJob>) -> (r: Option<i64>)
    ensures
        match r {
            Some(id) => downloading_in(order::views(jobs@)) == Some(id as int),
            None => downloading_in(order::views(jobs@)) is None,
        },
{
    let ghost all = order::views(jobs@);
    let mut i: usize = 0;
    assert(all.skip(0) == all);
    while i < jobs.len()
        invariant
            i <= jobs.len(),
            all == order::views(jobs@),
            downloading_in(all) == downloading_in(all.skip(i as int)),
        decreases jobs.len() - i,
    {
        assert(all.skip(i as int)[0] == jobs@[i as int]@);
        if jobs[i].state == JobState::Downloading {
            return Some(jobs[i].id);
        }
        assert(all.skip(i as int).skip(1) == all.skip(i + 1));
        i += 1;
    }
    None
}

/// A list of jobs in which the first one with this id has another state.
pub open spec fn with_state(jobs: Seq<JobView>, id: i64, state: JobState) -> Seq<JobView>
    decreases jobs.len(),
{
    if jobs.len() == 0 {
        jobs
    } else if jobs[0].id == id {
        jobs.update(0, JobView { state, ..jobs[0] })
    } else {
        seq![jobs[0]] + with_state(jobs.skip(1), id, state)
    }
}

proof fn lemma_with_state(jobs: Seq<JobView>, id: i64, state: JobState, at: int)
    requires
        0 <= at <= jobs.len(),
        forall|k: int| 0 <= k < at ==> (#[trigger] jobs[k]).id != id,
        at < jobs.len() ==> jobs[at].id == id,
    ensures
        with_state(jobs, id, state) == if at < jobs.len() {
            jobs.update(at, JobView { state, ..jobs[at] })
        } else {
            jobs
        },
    decreases at,
{
    if at > 0 {
        let rest = jobs.skip(1);
        assert(jobs[0].id != id);
        assert forall|k: int| 0 <= k < at - 1 implies (#[trigger] rest[k]).id != id by {
            assert(rest[k] == jobs[k + 1]);
        }
        lemma_with_state(rest, id, state, at - 1);
        if at < jobs.len() {
            assert(seq![jobs[0]] + rest.update(at - 1, JobView { state, ..rest[at - 1] })
                =~= jobs.update(at, JobView { state, ..jobs[at] }));
        } else {
            assert(seq![jobs[0]] + rest =~= jobs);
        }
    }
}

/// An id as the tab holds it.
pub open spec fn shown_id(o: Option<int>) -> Option<i64> {
    match o {
        Some(id) => Some(id as i64),
        None => None,
    }
}

impl QueueStateView {
    /// The state after an event.
    pub open spec fn after(self, event: BackendEventView) -> QueueStateView {
        match event {
            BackendEventView::JobsList(jobs) => QueueStateView {
                jobs,
                current_job_id: shown_id(downloading_in(jobs)),
                ..self
            },
            BackendEventView::JobStateChanged { job_id, state } => QueueStateView {
                jobs: with_state(self.jobs, job_id, state),
                current_job_id: if state == JobState::Downloading {
                    Some(job_id)
                } else if self.current_job_id == Some(job_id) {
                    None
                } else {
                    self.current_job_id
                },
                ..self
            },
            BackendEventView::Speed { job_id, downloaded_bytes, total_bytes } => QueueStateView {
                current_job_id: job_id,
                current_downloaded: downloaded_bytes,
                current_total: total_bytes,
                ..self
            },
            BackendEventView::JobDetails { job_id, files } => if self.selected_job == Some(job_id) {
                QueueStateView { job_details: files, ..self }
            } else {
                self
            },
            BackendEventView::PostProcessStarted { job_id } => QueueStateView {
                pp_in_progress: self.pp_in_progress.insert(job_id),
                ..self
            },
            BackendEventView::PostProcessDone { job_id, report } => QueueStateView {
                pp_in_progress: match job_id {
                    Some(id) => self.pp_in_progress.remove(id),
                    None => self.pp_in_progress,
                },
                pp_reports: self.pp_reports.push((job_id, report)),
                ..self
            },
            BackendEventView::PostProcessFailed { job_id, .. } => QueueStateView {
                pp_in_progress: match job_id {
                    Some(id) => self.pp_in_progress.remove(id),
                    None => self.pp_in_progress,
                },
                ..self
            },
            BackendEventView::EnginePaused(paused) => QueueStateView {
                engine_paused: paused,
                ..self
            },
            _ => self,
        }
    }

    /// The state after a list of events.
    pub open spec fn after_all(self, events: Seq<BackendEventView>) -> QueueStateView
        decreases events.len(),
    {
        if events.len() == 0 {
            self
        } else {
            self.after_all(events.drop_last()).after(events.last())
        }
    }

    /// Whether anything is going on that is worth looking at again soon.
    pub open spec fn is_active(self) -> bool {
        ||| self.current_job_id is Some
        ||| !self.pp_in_progress.is_empty()
        ||| exists|i: int|
            0 <= i < self.jobs.len() && ((#[trigger] self.jobs[i]).state == JobState::Downloading
                || self.jobs[i].state == JobState::Fetching)
    }
}

/// The last report on a job.
pub open spec fn last_report_in(
    reports: Seq<(Option<i64>, ReportView)>,
    job_id: i64,
) -> Option<ReportView>
    decreases reports.len(),
{
    if reports.len() == 0 {
        None
    } else if reports.last().0 == Some(job_id) {
        Some(reports.last().1)
    } else {
        last_report_in(reports.drop_last(), job_id)
    }
}

/// The commands that remove the jobs of a list that are over.
pub open spec fn removals(jobs: Seq<JobView>) -> Seq<BackendCmd>
    decreases jobs.len(),
{
    if jobs.len() == 0 {
        Seq::empty()
    } else {
        let before = removals(jobs.drop_last());
        let last = jobs.last();
        if last.state == JobState::Complete || last.state == JobState::Failed {
            before.push(BackendCmd::DeleteJob { job_id: last.id as i64 })
        } else {
            before
        }
    }
}

/// A second copy of a list of jobs.
fn copy_jobs(v: &Vec<QueueJob>) -> (r: Vec<QueueJob>)
    ensures
        order::views(r@) == order::views(v@),
{
    let mut r: Vec<QueueJob> = Vec::new();
    for i in 0..v.len()
        invariant
            r.len() == i,
            forall|k: int| 0 <= k < i ==> (#[trigger] r@[k])@ == v@[k]@,
    {
        r.push(v[i].clone());
    }
    assert(order::views(r@) =~= order::views(v@));
    r
}

/// A second copy of a list of files.
fn copy_details(v: &Vec<JobFileDetail>) -> (r: Vec<JobFileDetail>)
    ensures
        order::views(r@) == order::views(v@),
{
    let mut r: Vec<JobFileDetail> = Vec::new();
    for i in 0..v.len()
        invariant
            r.len() == i,
            forall|k: int| 0 <= k < i ==> (#[trigger] r@[k])@ == v@[k]@,
    {
        r.push(v[i].clone());
    }
    assert(order::views(r@) =~= order::views(v@));
    r
}

impl QueueState {
    /// Gives the first job with this id another state.
    fn set_state(&mut self, job_id: i64, state: JobState)
        ensures
            final(self)@ == (QueueStateView {
                jobs: with_state(old(self)@.jobs, job_id, state),
                ..old(self)@
            }),
    {
        let n: usize = self.jobs.len();
        let mut i: usize = 0;
        while i < n && self.jobs[i].id != job_id
            invariant
                i <= n,
                n == self.jobs.len(),
                forall|k: int| 0 <= k < i ==> (#[trigger] self.jobs@[k]).id != job_id,
            decreases n - i,
        {
            i += 1;
        }
        proof {
            let all = order::views(self.jobs@);
            assert forall|k: int| 0 <= k < i implies (#[trigger] all[k]).id != job_id by {
                assert(all[k] == self.jobs@[k]@);
            }
            lemma_with_state(all, job_id, state, i as int);
        }
        if i < n {
            let ghost had = self.jobs@;
            self.jobs[i].state = state;
            assert(order::views(self.jobs@) =~= order::views(had).update(
                i as int,
                JobView { state, ..had[i as int]@ },
            ));
        }
    }

    /// Takes up one event.
    fn handle_event(&mut self, event: &BackendEvent)
        ensures
            final(self)@ == old(self)@.after(event@),
    {
        match event {
            BackendEvent::JobsList(jobs) => {
                self.jobs = copy_jobs(jobs);
                self.current_job_id = first_downloading(jobs);
            },
            BackendEvent::JobStateChanged { job_id, state } => {
                self.set_state(*job_id, *state);
                if *state == JobState::Downloading {
                    self.current_job_id = Some(*job_id);
                } else {
                    let is_current = match self.current_job_id {
                        Some(id) => id == *job_id,
                        None => false,
                    };
                    if is_current {
                        self.current_job_id = None;
                    }
                }
            },
            BackendEvent::Speed { job_id, downloaded_bytes, total_bytes } => {
                self.current_job_id = *job_id;
                self.current_downloaded = *downloaded_bytes;
                self.current_total = *total_bytes;
            },
            BackendEvent::JobDetails { job_id, files } => {
                let is_shown = match self.selected_job {
                    Some(id) => id == *job_id,
                    None => false,
                };
                if is_shown {
                    self.job_details = copy_details(files);
                }
            },
            BackendEvent::PostProcessStarted { job_id } => {
                self.pp_in_progress.insert(*job_id);
            },
            BackendEvent::PostProcessDone { job_id, report } => {
                if let Some(id) = job_id {
                    self.pp_in_progress.remove(id);
                }
                let ghost had = self.pp_reports@;
                let ghost v = report@;
                self.pp_reports.push((*job_id, report.clone()));
                assert(report_views(self.pp_reports@) =~= report_views(had).push((*job_id, v)));
            },
            BackendEvent::PostProcessFailed { job_id, .. } => {
                if let Some(id) = job_id {
                    self.pp_in_progress.remove(id);
                }
            },
            BackendEvent::EnginePaused(paused) => {
                self.engine_paused = *paused;
            },
            _ => {},
        }
        assert(self@ =~= old(self)@.after(event@));
    }

    /// Takes up the events that concern the queue.
    pub fn handle_events(&mut self, events: &Vec<BackendEvent>)
        ensures
            final(self)@ == old(self)@.after_all(order::views(events@)),
    {
        let ghost all = order::views(events@);
        let ghost start = self@;
        let n: usize = events.len();
        let mut i: usize = 0;
        assert(all.take(0) == Seq::<BackendEventView>::empty());
        while i < n
            invariant
                n == events.len(),
                i <= n,
                all == order::views(events@),
                self@ == start.after_all(all.take(i as int)),
            decreases n - i,
        {
            proof {
                assert(all.take(i + 1).drop_last() == all.take(i as int));
                assert(all.take(i + 1).last() == events@[i as int]@);
            }
            self.handle_event(&events[i]);
            i += 1;
        }
        assert(all.take(n as int) == all);
    }

    /// Shows a job. The answer holds what to ask for, in order.
    pub fn select_job(&mut self, job_id: i64) -> (r: Vec<BackendCmd>)
        ensures
            final(self)@ == (QueueStateView {
                selected_job: Some(job_id),
                job_details: Seq::empty(),
                ..old(self)@
            }),
            r@ == seq![
                BackendCmd::SetSelectedJob { job_id: Some(job_id) },
                BackendCmd::GetJobDetails { job_id },
            ],
    {
        self.selected_job = Some(job_id);
        self.job_details = Vec::new();
        assert(order::views(self.job_details@) =~= Seq::<StatsView>::empty());
        vec![
            BackendCmd::SetSelectedJob { job_id: Some(job_id) },
            BackendCmd::GetJobDetails { job_id },
        ]
    }

    /// Shows no job. The answer holds what to ask for.
    pub fn clear_selection(&mut self) -> (r: Vec<BackendCmd>)
        ensures
            final(self)@ == (QueueStateView {
                selected_job: None,
                job_details: Seq::empty(),
                ..old(self)@
            }),
            r@ == seq![BackendCmd::SetSelectedJob { job_id: None }],
    {
        self.selected_job = None;
        self.job_details = Vec::new();
        assert(order::views(self.job_details@) =~= Seq::<StatsView>::empty());
        vec![BackendCmd::SetSelectedJob { job_id: None }]
    }

    /// Whether there are jobs that are over.
    pub fn has_completed(&self) -> (r: bool)
        ensures
            r == exists|i: int|
                0 <= i < self@.jobs.len() && ((#[trigger] self@.jobs[i]).state == JobState::Complete
                    || self@.jobs[i].state == JobState::Failed),
    {
        for i in 0..self.jobs.len()
            invariant
                forall|k: int|
                    0 <= k < i ==> (#[trigger] self@.jobs[k]).state != JobState::Complete
                        && self@.jobs[k].state != JobState::Failed,
        {
            assert(self@.jobs[i as int] == self.jobs@[i as int]@);
            let state = self.jobs[i].state;
            if state == JobState::Complete || state == JobState::Failed {
                return true;
            }
        }
        false
    }

    /// What was last done with the download of a job.
    pub fn last_report(&self, job_id: i64) -> (r: Option<&PostProcessReport>)
        ensures
            match r {
                Some(v) => last_report_in(self@.pp_reports, job_id) == Some(v@),
                None => last_report_in(self@.pp_reports, job_id) is None,
            },
    {
        let ghost all = self@.pp_reports;
        let mut i: usize = self.pp_reports.len();
        assert(all.take(i as int) == all);
        while i > 0
            invariant
                i <= self.pp_reports.len(),
                all == self@.pp_reports,
                last_report_in(all, job_id) == last_report_in(all.take(i as int), job_id),
            decreases i,
        {
            i -= 1;
            assert(all.take(i + 1).last() == all[i as int]);
            assert(all.take(i + 1).drop_last() == all.take(i as int));
            let is_its = match self.pp_reports[i].0 {
                Some(id) => id == job_id,
                None => false,
            };
            if is_its {
                return Some(&self.pp_reports[i].1);
            }
        }
        None
    }

    /// What to ask for to remove the jobs that are over, in the order of the list.
    pub fn clear_completed(&self) -> (r: Vec<BackendCmd>)
        ensures
            r@ == removals(self@.jobs),
    {
        let ghost all = self@.jobs;
        let mut r: Vec<BackendCmd> = Vec::new();
        assert(all.take(0) == Seq::<JobView>::empty());
        for i in 0..self.jobs.len()
            invariant
                all == self@.jobs,
                r@ == removals(all.take(i as int)),
        {
            assert(all[i as int] == self.jobs@[i as int]@);
            assert(all.take(i + 1).drop_last() == all.take(i as int));
            let state = self.jobs[i].state;
            if state == JobState::Complete || state == JobState::Failed {
                r.push(BackendCmd::DeleteJob { job_id: self.jobs[i].id });
            }
        }
        assert(all.take(all.len() as int) == all);
        r
    }

    /// Whether anything is going on that is worth looking at again soon.
    pub fn has_active(&self) -> (r: bool)
        ensures
            r == self@.is_active(),
    {
        if self.current_job_id.is_some() || !self.pp_in_progress.is_empty() {
            return true;
        }
        for i in 0..self.jobs.len()
            invariant
                forall|k: int|
                    0 <= k < i ==> (#[trigger] self@.jobs[k]).state != JobState::Downloading
                        && self@.jobs[k].state != JobState::Fetching,
        {
            assert(self@.jobs[i as int] == self.jobs@[i as int]@);
            let state = self.jobs[i].state;
            if state == JobState::Downloading || state == JobState::Fetching {
                return true;
            }
        }
        false
    }
}

/// Details of a job that is not shown change nothing.
pub proof fn other_details_are_ignored(s: QueueStateView, job_id: i64, files: Seq<StatsView>)
    requires
        s.selected_job != Some(job_id),
    ensures
        s.after(BackendEventView::JobDetails { job_id, files }) == s,
{
}

/// The list of jobs decides which job downloads, whatever was shown before.
pub proof fn job_list_decides(s: QueueStateView, t: QueueStateView, jobs: Seq<JobView>)
    ensures
        s.after(BackendEventView::JobsList(jobs)).jobs == jobs,
        s.after(BackendEventView::JobsList(jobs)).current_job_id == t.after(
            BackendEventView::JobsList(jobs),
        ).current_job_id,
{
}

/// The tabs.
#[derive(Debug, Clone, Copy, PartialEq, Eq, Structural)]
pub enum Tab {
    Search,
    Queue,
    Settings,
}

/// Which tab is shown.
#[derive(Debug, Clone, Copy, PartialEq, Eq, Structural)]
pub struct TabState {
    pub tab: Tab,
    /// Whether a list of jobs has arrived.
    pub initial_jobs_received: bool,
}

impl TabState {
    /// The tab after an event: with the first list of jobs the search is shown, if there are
    /// none.
    pub open spec fn after(self, event: BackendEventView) -> TabState {
        match event {
            BackendEventView::JobsList(jobs) => TabState {
                tab: if !self.initial_jobs_received && jobs.len() == 0 {
                    Tab::Search
                } else {
                    self.tab
                },
                initial_jobs_received: true,
            },
            _ => self,
        }
    }

    /// The tab after a list of events.
    pub open spec fn after_all(self, events: Seq<BackendEventView>) -> TabState
        decreases events.len(),
    {
        if events.len() == 0 {
            self
        } else {
            self.after_all(events.drop_last()).after(events.last())
        }
    }

    /// The queue is shown first.
    pub fn new() -> (r: Self)
        ensures
            r == (TabState { tab: Tab::Queue, initial_jobs_received: false }),
    {
        TabState { tab: Tab::Queue, initial_jobs_received: false }
    }

    /// Takes up events.
    pub fn handle_events(&mut self, events: &Vec<BackendEvent>)
        ensures
            *final(self) == old(self).after_all(order::views(events@)),
    {
        let ghost all = order::views(events@);
        let ghost start = *self;
        let n: usize = events.len();
        let mut i: usize = 0;
        assert(all.take(0) == Seq::<BackendEventView>::empty());
        while i < n
            invariant
                n == events.len(),
                i <= n,
                all == order::views(events@),
                *self == start.after_all(all.take(i as int)),
            decreases n - i,
        {
            proof {
                assert(all.take(i + 1).drop_last() == all.take(i as int));
                assert(all.take(i + 1).last() == events@[i as int]@);
            }
            if let BackendEvent::JobsList(jobs) = &events[i] {
                if !self.initial_jobs_received && jobs.len() == 0 {
                    self.tab = Tab::Search;
                }
                self.initial_jobs_received = true;
            }
            i += 1;
        }
        assert(all.take(n as int) == all);
    }
}

/// The tab changes by itself only once: after a list of jobs, no event changes it.
pub proof fn tab_stays(s: TabState, events: Seq<BackendEventView>)
    requires
        s.initial_jobs_received,
    ensures
        s.after_all(events) == s,
    decreases events.len(),
{
    if events.len() > 0 {
        tab_stays(s, events.drop_last());
    }
}

/// The job that downloads is the first of a list in that state.
pub proof fn first_download_is_current(jobs: Seq<JobView>, i: int)
    ensures
        0 <= i < jobs.len() && jobs[i].state == JobState::Downloading && (forall|k: int|
            0 <= k < i ==> (#[trigger] jobs[k]).state != JobState::Downloading) ==> downloading_in(
            jobs,
        ) == Some(jobs[i].id),
        (forall|k: int|
            0 <= k < jobs.len() ==> (#[trigger] jobs[k]).state != JobState::Downloading)
            ==> downloading_in(jobs) is None,
    decreases jobs.len(),
{
    if jobs.len() > 0 && jobs[0].state != JobState::Downloading {
        let rest = jobs.skip(1);
        assert forall|k: int| 0 <= k < rest.len() implies #[trigger] rest[k] == jobs[k + 1] by {}
        first_download_is_current(rest, i - 1);
    }
}

/// A new state goes to the first job with the id; nothing else of the list changes.
pub proof fn states_go_to_their_jobs(jobs: Seq<JobView>, id: i64, state: JobState, i: int)
    requires
        0 <= i < jobs.len(),
    ensures
        with_state(jobs, id, state).len() == jobs.len(),
        jobs[i].id == id && (forall|k: int| 0 <= k < i ==> (#[trigger] jobs[k]).id != id)
            ==> with_state(jobs, id, state)[i] == (JobView { state, ..jobs[i] }),
        jobs[i].id != id || (exists|k: int| 0 <= k < i && (#[trigger] jobs[k]).id == id)
            ==> with_state(jobs, id, state)[i] == jobs[i],
    decreases jobs.len(),
{
    lemma_state_at(jobs, id, state, i);
}

proof fn lemma_state_at(jobs: Seq<JobView>, id: i64, state: JobState, i: int)
    ensures
        with_state(jobs, id, state).len() == jobs.len(),
        0 <= i < jobs.len() && jobs[i].id == id && (forall|k: int|
            0 <= k < i ==> (#[trigger] jobs[k]).id != id) ==> with_state(jobs, id, state)[i] == (
        JobView { state, ..jobs[i] }),
        0 <= i < jobs.len() && (jobs[i].id != id || (exists|k: int|
            0 <= k < i && (#[trigger] jobs[k]).id == id)) ==> with_state(jobs, id, state)[i]
            == jobs[i],
    decreases jobs.len(),
{
    if jobs.len() > 0 && jobs[0].id != id {
        let rest = jobs.skip(1);
        assert forall|k: int| 0 <= k < rest.len() implies #[trigger] rest[k] == jobs[k + 1] by {}
        lemma_state_at(rest, id, state, i - 1);
        if exists|k: int| 0 <= k < i && (#[trigger] jobs[k]).id == id {
            let k = choose|k: int| 0 <= k < i && (#[trigger] jobs[k]).id == id;
            if i < jobs.len() {
                assert(rest[k - 1].id == id);
            }
        }
    }
}

/// What is told of a job is shown: a job that begins to download becomes the current one, and the
/// current one is none any more when it stops; figures and pauses are taken over; a job is in
/// post-processing from its start to its end, and a report is kept when it ends well.
pub proof fn events_are_shown(
    s: QueueStateView,
    id: i64,
    state: JobState,
    other: i64,
    done: u64,
    total: u64,
    report: ReportView,
    error: Seq<char>,
    paused: bool,
)
    requires
        other != id,
    ensures
        s.after(
            BackendEventView::JobStateChanged { job_id: id, state: JobState::Downloading },
        ).current_job_id == Some(id),
        state != JobState::Downloading && s.current_job_id == Some(id) ==> s.after(
            BackendEventView::JobStateChanged { job_id: id, state },
        ).current_job_id is None,
        state != JobState::Downloading && s.current_job_id != Some(id) ==> s.after(
            BackendEventView::JobStateChanged { job_id: id, state },
        ).current_job_id == s.current_job_id,
        s.after(
            BackendEventView::Speed {
                job_id: Some(id),
                downloaded_bytes: done,
                total_bytes: total,
            },
        ) == (QueueStateView {
            current_job_id: Some(id),
            current_downloaded: done,
            current_total: total,
            ..s
        }),
        s.after(BackendEventView::PostProcessStarted { job_id: id }).pp_in_progress.contains(id),
        s.after(BackendEventView::PostProcessStarted { job_id: id }).pp_in_progress.contains(other)
            == s.pp_in_progress.contains(other),
        ({
            let r = s.after(BackendEventView::PostProcessDone { job_id: Some(id), report });
            &&& !r.pp_in_progress.contains(id)
            &&& r.pp_in_progress.contains(other) == s.pp_in_progress.contains(other)
            &&& r.pp_reports == s.pp_reports.push((Some(id), report))
            &&& last_report_in(r.pp_reports, id) == Some(report)
            &&& last_report_in(r.pp_reports, other) == last_report_in(s.pp_reports, other)
        }),
        ({
            let r = s.after(BackendEventView::PostProcessFailed { job_id: Some(id), error });
            &&& !r.pp_in_progress.contains(id)
            &&& r.pp_in_progress.contains(other) == s.pp_in_progress.contains(other)
            &&& r.pp_reports == s.pp_reports
        }),
        s.after(BackendEventView::EnginePaused(paused)) == (QueueStateView {
            engine_paused: paused,
            ..s
        }),
{
    assert(s.pp_reports.push((Some(id), report)).drop_last() =~= s.pp_reports);
}

/// Details are shown of the job that is selected.
pub proof fn details_of_selected_job_are_shown(
    s: QueueStateView,
    id: i64,
    files: Seq<StatsView>,
)
    requires
        s.selected_job == Some(id),
    ensures
        s.after(BackendEventView::JobDetails { job_id: id, files }) == (QueueStateView {
            job_details: files,
            ..s
        }),
{
}

/// There is something to do while a job is current, is in post-processing, downloads or is being
/// fetched; jobs that wait or are over are nothing to do.
pub proof fn work_keeps_the_window_awake(s: QueueStateView, i: int, id: i64)
    ensures
        s.current_job_id is Some ==> s.is_active(),
        s.pp_in_progress.contains(id) ==> s.is_active(),
        0 <= i < s.jobs.len() && (s.jobs[i].state == JobState::Downloading || s.jobs[i].state
            == JobState::Fetching) ==> s.is_active(),
        s.current_job_id is None && s.pp_in_progress == Set::<i64>::empty() && (forall|k: int|
            0 <= k < s.jobs.len() ==> ((#[trigger] s.jobs[k]).state == JobState::Queued
                || s.jobs[k].state == JobState::Complete || s.jobs[k].state == JobState::Failed))
            ==> !s.is_active(),
{
}

/// Clearing removes the jobs that are complete or failed, one after the other, and no other.
pub proof fn finished_jobs_are_removed(jobs: Seq<JobView>, j: JobView)
    ensures
        removals(Seq::empty()) == Seq::<BackendCmd>::empty(),
        j.state == JobState::Complete || j.state == JobState::Failed ==> removals(jobs.push(j))
            == removals(jobs).push(BackendCmd::DeleteJob { job_id: j.id as i64 }),
        j.state == JobState::Fetching || j.state == JobState::Queued || j.state
            == JobState::Downloading ==> removals(jobs.push(j)) == removals(jobs),
{
    assert(jobs.push(j).drop_last() =~= jobs);
}

/// An empty first list of jobs opens the search; any other list leaves the tab alone.
pub proof fn empty_first_list_opens_search(s: TabState, jobs: Seq<JobView>)
    ensures
        !s.initial_jobs_received && jobs.len() == 0 ==> s.after(
            BackendEventView::JobsList(jobs),
        ).tab == Tab::Search,
        s.initial_jobs_received || jobs.len() > 0 ==> s.after(BackendEventView::JobsList(jobs)).tab
            == s.tab,
        s.after(BackendEventView::JobsList(jobs)).initial_jobs_received,
{
}

/// Events are taken in their order.
pub proof fn events_are_taken_in_turn(
    s: QueueStateView,
    t: TabState,
    events: Seq<BackendEventView>,
    e: BackendEventView,
)
    ensures
        s.after_all(Seq::empty()) == s,
        s.after_all(events.push(e)) == s.after_all(events).after(e),
        t.after_all(Seq::empty()) == t,
        t.after_all(events.push(e)) == t.after_all(events).after(e),
{
    assert(events.push(e).drop_last() =~= events);
}

/// The window starts with nothing to show and nothing to do.
pub proof fn windows_start_empty()
    ensures
        empty_state().jobs.len() == 0,
        empty_state().job_details.len() == 0,
        empty_state().pp_reports.len() == 0,
        empty_state().current_downloaded == 0,
        empty_state().current_total == 0,
        empty_state().selected_job is None,
        !empty_state().engine_paused,
        !empty_state().is_active(),
{
}

} // verus!
