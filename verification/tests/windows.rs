//! What the windows and the background half of the application decide.
use nobz::aggregate::AggregatedResult;
use nobz::backend::{
    append_api_key, build_job_details, delete_job, enqueue, is_nzb_head, looks_like_nzb, move_job,
    normalize_indexer_config, normalize_indexer_url, pause_engine, pause_job,
    post_process_config, refuse_fetch, resume_engine, resume_job, safe_dir_name, settle_run, try_start_next_job, BackendCmd,
    BackendEvent, ByteCount, Control, RunEnd, Start,
};
use nobz::caps_parser::parse_caps;
use nobz::display::{
    bytes_shown, describe_caps, format_age, job_progress, pp_summary, segment_dots, size_unit,
    state_label, Dot, JobProgress, SizeUnit,
};
use nobz::engine::{Engine, ProgressEvent};
use nobz::nzb::{Nzb, NzbFile, NzbSegment};
use nobz::postprocess::{PostProcessReport, PostProcessStatus, VerifyReport};
use nobz::queue::{JobState, QueueManager, SegmentState};
use nobz::queue_tab::{QueueState, Tab, TabState};
use nobz::search_tab::{SearchState, SearchStatus, SortColumn, SortState};
use nobz::settings::{entered, parse_indexer, AppConfig, CategoryMapping, PostProcessDefaults, ServerEntry};
use nobz::settings_tab::{new_indexer_form, SettingsState};
use nobz::types::{IndexerConfig, PasswordStatus, SearchResult};
use nobz::win95_widgets::Win95Checkbox;

fn nzb(title: &str) -> Nzb {
    Nzb {
        title: Some(title.to_string()),
        passwords: vec![],
        files: vec![NzbFile {
            filename: format!("{title}.bin"),
            subject: String::new(),
            poster: String::new(),
            date: 0,
            segment_count: 2,
            segments: (1..3)
                .map(|number| NzbSegment {
                    number,
                    message_id: format!("{title}{number}"),
                    bytes: 50,
                    missing: false,
                })
                .collect(),
        }],
    }
}

fn indexer(url: &str, api_key: &str) -> IndexerConfig {
    IndexerConfig {
        name: "n".to_string(),
        url: url.to_string(),
        api_key: api_key.to_string(),
        max_concurrent: 1,
        timeout_s: 15,
        priority: 0,
    }
}

#[test]
fn addresses_of_indexers() {
    assert_eq!(normalize_indexer_url("https://x.com"), "https://x.com/api");
    assert_eq!(normalize_indexer_url("https://x.com//"), "https://x.com/api");
    assert_eq!(normalize_indexer_url("https://x.com/api/"), "https://x.com/api");
    let again = normalize_indexer_url(&normalize_indexer_url("https://x.com"));
    assert_eq!(again, "https://x.com/api");
    assert_eq!(normalize_indexer_config(indexer("u", "k")).url, "u/api");
}

#[test]
fn keys_are_appended_once() {
    let known = vec![indexer("https://x.com", "K")];
    let once = append_api_key("https://x.com/api?t=get&id=1", &known);
    assert_eq!(once, "https://x.com/api?t=get&id=1&apikey=K");
    assert_eq!(append_api_key(&once, &known), once);
    assert_eq!(append_api_key("https://x.com/api/1", &known), "https://x.com/api/1?apikey=K");
    assert_eq!(append_api_key("https://y.com/api", &known), "https://y.com/api");
}

#[test]
fn nzb_files_are_recognised() {
    assert!(is_nzb_head("  <?xml version"));
    assert!(looks_like_nzb(&b"\n<nzb>".to_vec()));
    assert!(!looks_like_nzb(&b"<html>".to_vec()));
    assert!(!looks_like_nzb(&vec![]));
    let mut late = vec![b' '; 200];
    late.extend_from_slice(b"<nzb>");
    assert!(!looks_like_nzb(&late));
    assert_eq!(refuse_fetch(200), None);
    assert_eq!(refuse_fetch(404).as_deref(), Some("NZB fetch failed: HTTP 404 Not Found"));
}

#[test]
fn directories_for_releases() {
    assert_eq!(safe_dir_name("Some Release/..\\S01-é_x"), "SomeRelease..S01-é_x");
    assert_eq!(safe_dir_name(" / "), "nobz-download");
}

#[test]
fn jobs_start_one_by_one() {
    let mut q = QueueManager::open_in_memory();
    let mut c = Control::new();
    assert_eq!(try_start_next_job(&mut q, &mut c, true), Start::Nothing);
    let a = q.add_job(&nzb("a"), "/a", 0, None).unwrap();
    let b = q.add_job(&nzb("b"), "/b", 0, None).unwrap();
    assert_eq!(try_start_next_job(&mut q, &mut c, false), Start::NoServers);
    assert_eq!(try_start_next_job(&mut q, &mut c, true), Start::Run(a));
    assert_eq!(c, Control { running: Some(a), paused: false });
    assert_eq!(try_start_next_job(&mut q, &mut c, true), Start::Nothing);
    let after = settle_run(&mut q, a, RunEnd::Failed, true);
    assert_eq!((after.report, after.post_process), (None, false));
    assert_eq!(q.get_job(a).unwrap().state, JobState::Failed);
    assert_eq!(try_start_next_job(&mut q, &mut c, true), Start::Nothing);
    c.run_over();

    assert_eq!(try_start_next_job(&mut q, &mut c, true), Start::Run(b));
    q.set_job_state(b, JobState::Complete).unwrap();
    let after = settle_run(&mut q, b, RunEnd::Finished, true);
    assert_eq!((after.report, after.post_process), (Some(JobState::Complete), true));
    let after = settle_run(&mut q, b, RunEnd::Finished, false);
    assert!(!after.post_process);
}

#[test]
fn nothing_starts_between_a_pause_and_a_resumption() {
    let mut q = QueueManager::open_in_memory();
    let mut c = Control::new();
    let a = q.add_job(&nzb("a"), "/a", 0, None).unwrap();
    let b = q.add_job(&nzb("b"), "/b", 0, None).unwrap();
    assert_eq!(try_start_next_job(&mut q, &mut c, true), Start::Run(a));

    assert!(pause_job(&mut q, &mut c, a));
    let after = settle_run(&mut q, a, RunEnd::Cancelled, true);
    assert_eq!((after.report, after.post_process), (Some(JobState::Queued), false));
    c.run_over();
    assert_eq!(q.get_job(a).unwrap().state, JobState::Queued);
    assert_eq!(try_start_next_job(&mut q, &mut c, true), Start::Nothing);
    assert_eq!(try_start_next_job(&mut q, &mut c, false), Start::Nothing);
    assert!(!delete_job(&mut q, &c, b));
    assert_eq!(try_start_next_job(&mut q, &mut c, true), Start::Nothing);
    assert_eq!(q.current_downloading_job(), None);

    resume_job(&mut q, &mut c, a);
    assert_eq!(try_start_next_job(&mut q, &mut c, true), Start::Run(a));

    assert!(pause_engine(&mut c));
    settle_run(&mut q, a, RunEnd::Cancelled, true);
    c.run_over();
    assert!(!pause_engine(&mut c));
    assert_eq!(try_start_next_job(&mut q, &mut c, true), Start::Nothing);
    resume_engine(&mut c);
    assert_eq!(try_start_next_job(&mut q, &mut c, true), Start::Run(a));
}

#[test]
fn jobs_are_resumed_and_removed() {
    let mut q = QueueManager::open_in_memory();
    let mut c = Control::new();
    let a = q.add_job(&nzb("a"), "/a", 0, None).unwrap();
    let file = q.list_files(a)[0].id;
    q.set_segment_state(file, 1, SegmentState::Failed);
    q.set_job_state(a, JobState::Failed).unwrap();
    resume_job(&mut q, &mut c, a);
    assert_eq!(q.get_job(a).unwrap().state, JobState::Queued);
    assert_eq!(q.pending_segments(a)[0].1.len(), 2);
    assert!(!pause_job(&mut q, &mut c, a));
    assert!(c.paused);
    c.running = Some(a + 1);
    assert!(!delete_job(&mut q, &c, a));
    assert!(q.list_jobs().is_empty());
    assert!(delete_job(&mut q, &c, a + 1));
}

#[test]
fn jobs_change_places() {
    let mut q = QueueManager::open_in_memory();
    let a = q.add_job(&nzb("a"), "/a", 0, None).unwrap();
    let b = q.add_job(&nzb("b"), "/b", 0, None).unwrap();
    let c = q.add_job(&nzb("c"), "/c", -3, None).unwrap();
    let order = |q: &QueueManager| q.list_jobs().iter().map(|j| j.id).collect::<Vec<i64>>();
    assert_eq!(order(&q), vec![c, a, b]);
    move_job(&mut q, b, true);
    assert_eq!(order(&q), vec![c, b, a]);
    move_job(&mut q, c, false);
    assert_eq!(order(&q), vec![b, c, a]);
    for (id, up) in [(b, true), (a, false), (99, true)] {
        move_job(&mut q, id, up);
        assert_eq!(order(&q), vec![b, c, a]);
    }
    assert_eq!(q.get_job(a).unwrap().name, "a");
}

#[test]
fn details_of_a_job() {
    let mut q = QueueManager::open_in_memory();
    let a = q.add_job(&nzb("a"), "/a", 0, None).unwrap();
    let files = q.list_files(a);
    q.set_segment_state(files[0].id, 1, SegmentState::Done);
    let d = build_job_details(&q, &files);
    assert_eq!(d.len(), 1);
    assert_eq!(
        (d[0].segment_count, d[0].segments_done, d[0].total_bytes, d[0].downloaded_bytes),
        (2, 1, 100, 50)
    );
}

#[test]
fn settings_of_post_processing() {
    let defaults =
        PostProcessDefaults { auto_post_process: true, cleanup_archives: true, skip_verify: false };
    let mut q = QueueManager::open_in_memory();
    let mut release = nzb("a");
    release.passwords = vec!["first".to_string(), "second".to_string()];
    let a = enqueue(&mut q, &release, "/in", None).unwrap();
    let b = enqueue(&mut q, &release, "/in", Some("mine".to_string())).unwrap();
    let c = post_process_config(&q.get_job(a).unwrap(), None, "/out", &defaults);
    assert_eq!((c.download_dir.as_str(), c.completed_dir.as_str()), ("/in", "/out"));
    assert!(c.cleanup_archives && !c.skip_verify && c.category.is_none());
    assert_eq!(c.archive_password.as_deref(), Some("first"));
    let c =
        post_process_config(&q.get_job(b).unwrap(), Some("TV".to_string()), "/out", &defaults);
    assert_eq!(c.archive_password.as_deref(), Some("mine"));
    assert_eq!(c.category.as_deref(), Some("TV"));
}

#[test]
fn bytes_are_counted() {
    let mut count = ByteCount::start(300);
    count.note(&ProgressEvent::SegmentDone {
        filename: String::new(),
        segment: 1,
        status: SegmentState::Done,
        bytes: 40,
    });
    count.note(&ProgressEvent::JobFinished { completed: 1, failed: 0 });
    count.add_bytes(2);
    assert_eq!(count.tick(), 42);
    assert_eq!(count.tick(), 0);
    assert_eq!((count.downloaded, count.total), (42, 300));
}

fn found(title: &str, size: u64, post_date: u64, sources: usize) -> AggregatedResult {
    AggregatedResult {
        result: SearchResult {
            title: title.to_string(),
            guid: String::new(),
            nzb_url: String::new(),
            size,
            post_date,
            category: size as u32,
            category_name: String::new(),
            grabs: 0,
            files: 0,
            password: PasswordStatus::Unknown,
            indexer: String::new(),
            tv: None,
            movie: None,
        },
        sources: vec!["s".to_string(); sources],
    }
}

fn titles(s: &SearchState) -> Vec<&str> {
    s.results.iter().map(|r| r.result.title.as_str()).collect()
}

#[test]
fn results_are_sorted() {
    let mut s = SearchState::default();
    assert_eq!(s.sort, SortState { col: SortColumn::Age, asc: false });
    s.handle_events(&vec![BackendEvent::SearchResults(vec![
        found("b", 3, 10, 1),
        found("a", 1, 30, 3),
        found("c", 2, 20, 2),
    ])]);
    assert!(matches!(s.status, SearchStatus::Results(3)));
    assert_eq!(titles(&s), vec!["a", "c", "b"]);
    s.sort.toggle(SortColumn::Title);
    s.sort_results();
    assert_eq!(titles(&s), vec!["c", "b", "a"]);
    s.sort.toggle(SortColumn::Title);
    s.sort_results();
    assert_eq!(titles(&s), vec!["a", "b", "c"]);
    for (col, want) in [
        (SortColumn::Size, vec!["b", "c", "a"]),
        (SortColumn::Sources, vec!["a", "c", "b"]),
        (SortColumn::Category, vec!["b", "c", "a"]),
    ] {
        s.sort.toggle(col);
        s.sort_results();
        assert_eq!(titles(&s), want);
    }
    s.mark_downloaded(1);
    assert!(s.downloaded.contains(&1));
    s.handle_events(&vec![BackendEvent::SearchFailed("no".to_string())]);
    assert!(matches!(&s.status, SearchStatus::Error(e) if e == "no"));
}

#[test]
fn queries_are_built() {
    let mut s = SearchState::default();
    assert_eq!(s.category, "All");
    assert!(s.submit().is_none());
    assert!(matches!(&s.status, SearchStatus::Error(e) if e == "Enter a search query"));
    s.query = "  some show ".to_string();
    let q = s.build_query();
    assert_eq!((q.q.as_deref(), q.limit, q.categories.len()), (Some("some show"), 200, 0));
    assert_eq!(s.download_category(), None);
    s.category = "TV".to_string();
    let q = s.submit().unwrap();
    assert_eq!(q.categories, vec![5000]);
    assert!(matches!(s.status, SearchStatus::Searching));
    assert_eq!(s.download_category().as_deref(), Some("TV"));
}

#[test]
fn the_queue_follows_events() {
    let mut q = QueueManager::open_in_memory();
    let a = q.add_job(&nzb("a"), "/a", 0, None).unwrap();
    let b = q.add_job(&nzb("b"), "/b", 0, None).unwrap();
    q.claim_download_slot(b);
    let mut s = QueueState::default();
    assert!(!s.has_active());
    s.handle_events(&vec![BackendEvent::JobsList(q.list_jobs())]);
    assert_eq!(s.current_job_id, Some(b));
    assert!(s.has_active() && !s.has_completed());
    s.handle_events(&vec![
        BackendEvent::Speed { job_id: Some(b), downloaded_bytes: 7, total_bytes: 9 },
        BackendEvent::JobStateChanged { job_id: b, state: JobState::Complete },
        BackendEvent::EnginePaused(true),
    ]);
    assert_eq!((s.current_downloaded, s.current_total, s.current_job_id), (7, 9, None));
    assert!(s.has_completed() && !s.has_active() && s.engine_paused);
    assert_eq!(s.jobs[1].state, JobState::Complete);
    let asked = s.clear_completed();
    assert_eq!(asked.len(), 1);
    assert!(matches!(asked[0], BackendCmd::DeleteJob { job_id } if job_id == b));

    let asked = s.select_job(a);
    assert!(matches!(asked[0], BackendCmd::SetSelectedJob { job_id: Some(id) } if id == a));
    assert!(matches!(asked[1], BackendCmd::GetJobDetails { job_id } if job_id == a));
    let details = build_job_details(&q, &q.list_files(a));
    let other = build_job_details(&q, &q.list_files(b));
    s.handle_events(&vec![
        BackendEvent::JobDetails { job_id: a, files: details },
        BackendEvent::JobDetails { job_id: b, files: other },
    ]);
    assert_eq!(s.job_details[0].filename, "a.bin");
    let asked = s.clear_selection();
    assert!(matches!(asked[0], BackendCmd::SetSelectedJob { job_id: None }));
    assert!(s.job_details.is_empty());

    s.handle_events(&vec![BackendEvent::PostProcessStarted { job_id: b }]);
    assert!(s.pp_in_progress.contains(&b) && s.has_active());
    let report = PostProcessReport {
        verify: None,
        unpack: None,
        status: PostProcessStatus::NoArchives,
        final_dir: "/out".to_string(),
    };
    s.handle_events(&vec![BackendEvent::PostProcessDone { job_id: Some(b), report }]);
    assert!(s.pp_in_progress.is_empty());
    assert_eq!(s.pp_reports[0].1.final_dir, "/out");

    s.handle_events(&vec![BackendEvent::PostProcessStarted { job_id: b }]);
    s.handle_events(&vec![BackendEvent::PostProcessFailed {
        job_id: Some(b),
        error: "bad".to_string(),
    }]);
    assert!(s.pp_in_progress.is_empty());
}

#[test]
fn the_last_report_of_a_job_is_shown() {
    let report = |dir: &str| PostProcessReport {
        verify: None,
        unpack: None,
        status: PostProcessStatus::NoArchives,
        final_dir: dir.to_string(),
    };
    let mut s = QueueState::default();
    assert!(s.last_report(1).is_none());
    s.handle_events(&vec![
        BackendEvent::PostProcessDone { job_id: Some(1), report: report("/first") },
        BackendEvent::PostProcessDone { job_id: Some(2), report: report("/other") },
        BackendEvent::PostProcessDone { job_id: Some(1), report: report("/second") },
        BackendEvent::PostProcessDone { job_id: None, report: report("/none") },
    ]);
    assert_eq!(s.last_report(1).unwrap().final_dir, "/second");
    assert_eq!(s.last_report(2).unwrap().final_dir, "/other");
    assert!(s.last_report(3).is_none());
}

#[test]
fn an_empty_queue_shows_the_search_once() {
    let mut t = TabState::new();
    assert_eq!(t.tab, Tab::Queue);
    t.handle_events(&vec![BackendEvent::JobsList(vec![])]);
    assert_eq!(t.tab, Tab::Search);
    t.tab = Tab::Settings;
    t.handle_events(&vec![BackendEvent::JobsList(vec![])]);
    assert_eq!(t.tab, Tab::Settings);
}

#[test]
fn tests_of_servers_are_shown() {
    let mut s = SettingsState::default();
    assert_eq!((s.new_server.port, s.new_server.tls), (563, true));
    s.handle_events(&vec![
        BackendEvent::IndexerTestResult {
            name: "n".to_string(),
            ok: true,
            message: "fine".to_string(),
        },
        BackendEvent::ServerTestResult {
            host: "h".to_string(),
            ok: false,
            message: "down".to_string(),
        },
    ]);
    assert_eq!(s.indexer_test_msg, Some(("n: fine".to_string(), true)));
    assert_eq!(s.server_test_msg, Some(("h: down".to_string(), false)));
    assert_eq!(new_indexer_form(4).priority, 4);
    assert_eq!(entered(String::new()), None);
    assert_eq!(entered("u".to_string()).as_deref(), Some("u"));
}

#[test]
fn servers_are_tried_by_priority() {
    let mut slow = ServerEntry::blank(9);
    slow.host = "slow".to_string();
    let mut fast = ServerEntry::blank(1);
    fast.host = "fast".to_string();
    fast.max_connections = 20;
    let mut config = AppConfig {
        servers: vec![slow, fast],
        indexers: vec![],
        download_dir: String::new(),
        completed_dir: String::new(),
        db_path: String::new(),
        max_connections: 0,
        categories: vec![
            CategoryMapping { name: "TV".to_string(), subfolder: "shows".to_string() },
            CategoryMapping { name: "TV".to_string(), subfolder: "other".to_string() },
        ],
        post_process: PostProcessDefaults {
            auto_post_process: false,
            cleanup_archives: false,
            skip_verify: false,
        },
    };
    let engine = Engine::new(config.server_configs(), 2);
    let hosts: Vec<&str> = engine.servers().iter().map(|s| s.host.as_str()).collect();
    assert_eq!(hosts, vec!["fast", "slow"]);

    assert_eq!(config.connections(), 28);
    config.max_connections = 5;
    assert_eq!(config.connections(), 5);
    assert_eq!(config.subfolder_of("TV"), "shows");
    assert_eq!(config.subfolder_of("Movies"), "Movies");
}

#[test]
fn ages_and_sizes() {
    let now = 1_000_000_000;
    let day = 86_400;
    for (age, text) in [
        (7_200, "2h"),
        (3 * day, "3d"),
        (15 * day, "2w"),
        (60 * day, "2mo"),
        (800 * day, "2y"),
    ] {
        assert_eq!(format_age(now - age, now), text);
    }
    assert_eq!(format_age(0, now), "?");
    assert_eq!(format_age(now + 1, now), "?");
    assert_eq!(size_unit(0), SizeUnit::Unknown);
    assert_eq!(size_unit(1023), SizeUnit::Bytes);
    assert_eq!(size_unit(1024), SizeUnit::Kilobytes);
    assert_eq!(size_unit(1 << 20), SizeUnit::Megabytes);
    assert_eq!(size_unit(1 << 30), SizeUnit::Gigabytes);
}

#[test]
fn progress_of_jobs() {
    let mut q = QueueManager::open_in_memory();
    let a = q.add_job(&nzb("a"), "/a", 0, None).unwrap();
    let job = q.get_job(a).unwrap();
    match job_progress(&job, None, 0) {
        JobProgress::Segments { done, total, text } => {
            assert_eq!((done, total), (0, 2));
            assert_eq!(text, "0 / 2 seg  (0 / 1 files)");
        }
        other => panic!("unexpected {other:?}"),
    }
    assert!(matches!(
        job_progress(&job, Some(a), 30),
        JobProgress::Bytes { downloaded: 30, total: 100 }
    ));
    assert_eq!(bytes_shown(&job, Some(a), 30), 30);
    assert_eq!(bytes_shown(&job, None, 30), 0);
    assert_eq!(state_label(JobState::Fetching), "Fetching...");
    assert_eq!(state_label(JobState::Failed), "Failed");
}

#[test]
fn dots_of_a_file() {
    let grid = segment_dots(400, 200, 100).unwrap();
    assert_eq!((grid.total, grid.done, grid.missing), (200, 100, 50));
    assert_eq!(grid.dot(99), Dot::Done);
    assert_eq!(grid.dot(100), Dot::Missing);
    assert_eq!(grid.dot(150), Dot::Pending);
    assert!(segment_dots(0, 0, 0).is_none());
}

#[test]
fn summaries() {
    let v = Some(VerifyReport { healthy: 3, damaged: 1, missing: 0 });
    assert_eq!(
        pp_summary(&v, Some(2), "Complete"),
        "PAR2: 3ok/1damaged/0missing | Unpacked: 2 files | Complete"
    );
    assert_eq!(pp_summary(&None, None, "X"), "PAR2: skipped | Unpacked: — | X");
    let caps = parse_caps("<caps title=\"T\"><server version=\"1\"/></caps>").unwrap();
    assert_eq!(describe_caps(&caps), "T — v1, 0 categories, retention ?d");
}

#[test]
fn checkboxes_turn() {
    let mut on = false;
    Win95Checkbox::new(&mut on, "x").click();
    assert!(on);
    Win95Checkbox::new(&mut on, "x").enabled(false).click();
    assert!(on);
}

#[test]
fn indexers_are_read_from_text() {
    let c = parse_indexer("Name=https://host:8080/api:key").unwrap();
    assert_eq!((c.name.as_str(), c.url.as_str()), ("Name", "https://host:8080/api"));
    assert_eq!((c.api_key.as_str(), c.max_concurrent, c.timeout_s, c.priority), ("key", 1, 15, 0));
    let c = parse_indexer("a=b=c:d:e").unwrap();
    assert_eq!((c.name.as_str(), c.url.as_str(), c.api_key.as_str()), ("a", "b=c:d", "e"));
    for wrong in ["", "Name", "https://host", "Name=host"] {
        assert_eq!(
            parse_indexer(wrong).unwrap_err(),
            "indexer spec must be Name=url:apikey"
        );
    }
}
