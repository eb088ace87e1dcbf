//! Whole downloads: a release goes through the queue, the engine and the servers, and comes out
//! as files. The servers are played by a list of articles.
use std::collections::HashMap;

use nobz::engine::{
    abandon_job, begin_job, files_to_assemble, final_name, finish_job, give_up_events, parts_dir_name, part_name,
    plan_assembly, precheck_servers, prepare_assembly, sanitize_yenc_name, slot_of,
    started_events, ArticleOutcome, Checkout, ConnectionFate, ConnectionPool, Engine, FetchLog,
    Fetched, FileOutcome, PerfStats, ProgressEvent, ServerAnswer, Slot, StateBuffer,
    Task, Worker, WorkQueue,
};
use nobz::nntp::{
    body_command, body_status, check_greeting, response_line, BodyReply, DotBody, ServerConfig,
};
use nobz::nzb::{Nzb, NzbFile, NzbSegment};
use nobz::queue::{JobState, QueueError, QueueFile, QueueManager, QueueSegment, SegmentState};

fn build_nzb(segments: &[(u32, &str)], name: &str) -> Nzb {
    Nzb {
        title: Some(name.to_string()),
        passwords: vec![],
        files: vec![NzbFile {
            filename: format!("{name}.bin"),
            subject: format!("\"{name}.bin\" (1/N)"),
            poster: "t@t".to_string(),
            date: 1,
            segment_count: segments.len() as u32,
            segments: segments
                .iter()
                .map(|(number, id)| NzbSegment {
                    number: *number,
                    message_id: id.to_string(),
                    bytes: 100,
                    missing: false,
                })
                .collect(),
        }],
    }
}

/// The lines that a server with these articles sends back for a command.
fn answer(articles: &[(&str, &[u8])], command: &str) -> Vec<Vec<u8>> {
    let id = command.split('<').nth(1).and_then(|s| s.split('>').next()).unwrap_or("");
    match articles.iter().find(|(name, _)| *name == id) {
        Some((_, data)) => {
            let mut line = data.to_vec();
            line.extend_from_slice(b"\r\n");
            vec![b"222 body follows\r\n".to_vec(), line, b".\r\n".to_vec()]
        }
        None => vec![b"430 no such article\r\n".to_vec()],
    }
}

/// Fetches one article.
fn fetch(articles: &[(&str, &[u8])], message_id: &str) -> Option<Vec<u8>> {
    let lines = answer(articles, &body_command(message_id));
    let status = response_line(&lines[0]).unwrap();
    match body_status(&status).unwrap() {
        BodyReply::Missing => None,
        BodyReply::Follows => {
            let mut body = DotBody::new();
            for line in &lines[1..] {
                if body.feed(line).unwrap() {
                    break;
                }
            }
            let mut bytes = body.finish().bytes;
            while bytes.ends_with(b"\n") || bytes.ends_with(b"\r") {
                bytes.pop();
            }
            Some(bytes)
        }
    }
}

/// Runs a job against a server with these articles. `parts` holds what is on disk from run to
/// run. The events and the assembled files come back.
fn run_job(
    queue: &mut QueueManager,
    job_id: i64,
    articles: &[(&str, &[u8])],
    real_name: &str,
    parts: &mut HashMap<(String, String), Vec<u8>>,
) -> (Vec<ProgressEvent>, HashMap<String, Vec<u8>>) {
    begin_job(queue, job_id).unwrap();
    let job = queue.get_job(job_id).unwrap();
    let pending = queue.pending_segments(job_id);
    let mut events = started_events(&pending);
    let ids: Vec<i64> = pending.iter().map(|(f, _)| f.id).collect();
    let mut work = WorkQueue::new(pending);
    let mut worker = Worker::new();
    let mut buffer = StateBuffer::new();
    while let Some(task) = work.next() {
        match task {
            Task::Fetch { file, segment } => {
                let owner = work.file(file);
                let fetched = match fetch(articles, &segment.message_id) {
                    Some(data) => {
                        let key = (parts_dir_name(&owner.filename), part_name(segment.number));
                        parts.insert(key, data);
                        Fetched::Decoded {
                            crc_ok: true,
                            crc_unknown: false,
                            name: real_name.to_string(),
                        }
                    }
                    None => Fetched::Missing,
                };
                let settled = worker.settle(owner, &segment, &fetched);
                if let Some(name) = &settled.real_name {
                    queue.set_file_yenc_name(owner.id, name);
                }
                if buffer.push(owner.id, segment.number, settled.state) {
                    queue.set_segment_states_batch(&buffer.drain());
                }
                events.extend(settled.events);
            }
            Task::GiveUp { .. } => panic!("nothing is given up here"),
        }
    }
    queue.set_segment_states_batch(&buffer.drain());
    let mut judged = Vec::new();
    let mut assembled = HashMap::new();
    for file in files_to_assemble(queue, job_id, &ids) {
        let (file, plan) = prepare_assembly(queue, file.id).unwrap();
        let mut data = Vec::new();
        let mut unreadable = 0;
        for number in &plan.parts {
            match parts.get(&(parts_dir_name(&file.filename), part_name(*number))) {
                Some(bytes) => data.extend_from_slice(bytes),
                None => unreadable += 1,
            }
        }
        let outcome = plan.outcome(unreadable);
        judged.push((file.id, Some(outcome)));
        let name = final_name(&file);
        events.push(ProgressEvent::FileCompleted {
            filename: file.filename.clone(),
            path: format!("{}/{name}", job.output_dir),
            missing: outcome.missing,
            crc_mismatches: outcome.crc_mismatches,
        });
        assembled.insert(name, data);
    }
    let (_, event) = finish_job(queue, job_id, &judged);
    events.push(event);
    (events, assembled)
}

#[test]
fn end_to_end_download_and_assemble() {
    let payload_a = b"AAAA-first-segment-payload-here";
    let payload_b = b"BBBB-second-segment-payload-here!!";
    assert!(check_greeting("200 nobz-fake ready").is_ok());

    let nzb = build_nzb(&[(1, "a@x"), (2, "b@x")], "demo");
    let mut queue = QueueManager::open_in_memory();
    let job_id = queue.add_job(&nzb, "/tmp/demo", 0, None).unwrap();

    let articles: Vec<(&str, &[u8])> = vec![("a@x", payload_a), ("b@x", payload_b)];
    let mut parts = HashMap::new();
    let (events, files) = run_job(&mut queue, job_id, &articles, "demo.bin", &mut parts);

    let file_completed = events.iter().any(|e| {
        matches!(e, ProgressEvent::FileCompleted { missing: 0, crc_mismatches: 0, .. })
    });
    let job_finished =
        events.iter().any(|e| matches!(e, ProgressEvent::JobFinished { completed: 1, .. }));
    assert!(file_completed, "file should complete with no missing/crc errors");
    assert!(job_finished, "job should report 1 completed");

    let expected = [payload_a.as_ref(), payload_b.as_ref()].concat();
    assert_eq!(files["demo.bin"], expected);

    let job = queue.get_job(job_id).unwrap();
    assert_eq!(job.state, JobState::Complete);
    assert_eq!(job.segments_done, 2);
    assert_eq!(job.downloaded_bytes, 200);
    assert_eq!(job.files_done, 1);
    assert!(queue.current_downloading_job().is_none());
}

#[test]
fn missing_segment_is_reported_not_fatal() {
    let payload_a = b"only-segment-one-payload-bytes!!";
    let nzb = build_nzb(&[(1, "a@x"), (2, "missing@x")], "partial");
    let mut queue = QueueManager::open_in_memory();
    let job_id = queue.add_job(&nzb, "/tmp/partial", 0, None).unwrap();

    let articles: Vec<(&str, &[u8])> = vec![("a@x", payload_a)];
    let mut parts = HashMap::new();
    let (events, assembled) = run_job(&mut queue, job_id, &articles, "partial.bin", &mut parts);

    let saw_missing = events.iter().any(|e| {
        matches!(e, ProgressEvent::SegmentDone { status: SegmentState::Missing, .. })
    });
    assert!(saw_missing, "engine should report the missing segment");
    assert_eq!(assembled["partial.bin"], payload_a);

    let files = queue.list_files(job_id);
    let segments = queue.list_segments(files[0].id);
    let seg2 = segments.iter().find(|s| s.number == 2).unwrap();
    assert_eq!(seg2.state, SegmentState::Missing);
    let job = queue.get_job(job_id).unwrap();
    assert_eq!(job.error.as_deref(), Some("1 of 1 files with missing/corrupt segments"));
}

#[test]
fn a_job_without_any_article_fails() {
    let nzb = build_nzb(&[(1, "gone@x"), (2, "lost@x")], "gone");
    let mut queue = QueueManager::open_in_memory();
    let job_id = queue.add_job(&nzb, "/tmp/gone", 0, None).unwrap();
    let mut parts = HashMap::new();
    run_job(&mut queue, job_id, &[], "gone.bin", &mut parts);
    assert_eq!(queue.get_job(job_id).unwrap().state, JobState::Failed);

    // Nothing is left to fetch now: another run judges no file, and the job is as incomplete as
    // before.
    begin_job(&mut queue, job_id).unwrap();
    assert!(queue.pending_segments(job_id).is_empty());
    let (state, event) = finish_job(&mut queue, job_id, &vec![]);
    assert_eq!(state, JobState::Failed);
    assert!(matches!(event, ProgressEvent::JobFinished { completed: 0, failed: 1 }));
    let job = queue.get_job(job_id).unwrap();
    assert_eq!(job.error.as_deref(), Some("1 of 1 files with missing/corrupt segments"));
}

#[test]
fn every_file_of_a_job_counts() {
    let mut nzb = build_nzb(&[(1, "a@x")], "two");
    let more = build_nzb(&[(1, "b@x")], "more");
    nzb.files.extend(more.files);
    let mut queue = QueueManager::open_in_memory();
    let job_id = queue.add_job(&nzb, "/tmp/two", 0, None).unwrap();
    let files = queue.list_files(job_id);
    let whole = FileOutcome { missing: 0, crc_mismatches: 0 };

    begin_job(&mut queue, job_id).unwrap();
    queue.set_segment_state(files[0].id, 1, SegmentState::Done);
    let (state, event) = finish_job(&mut queue, job_id, &vec![(files[0].id, Some(whole))]);
    assert_eq!(state, JobState::Failed);
    assert!(matches!(event, ProgressEvent::JobFinished { completed: 1, failed: 1 }));
    let error = queue.get_job(job_id).unwrap().error;
    assert_eq!(error.as_deref(), Some("1 of 2 files with missing/corrupt segments"));

    queue.set_segment_state(files[1].id, 1, SegmentState::Done);
    assert_eq!(
        finish_job(&mut queue, job_id, &vec![(files[1].id, None)]).0,
        JobState::Failed,
        "a file that could not be put together is not whole"
    );
    assert_eq!(finish_job(&mut queue, job_id, &vec![]).0, JobState::Complete);
    assert_eq!(queue.get_job(job_id).unwrap().error, None);

    let left = files_to_assemble(&queue, job_id, &vec![files[1].id, 99]);
    assert_eq!(left.len(), 1);
    assert_eq!(left[0].id, files[1].id);
}

#[test]
fn files_without_articles_are_prepared() {
    let mut nzb = build_nzb(&[(1, "a@x")], "some");
    let mut none = build_nzb(&[], "none");
    none.files[0].segment_count = 2;
    nzb.files.extend(none.files);
    let mut queue = QueueManager::open_in_memory();
    let job_id = queue.add_job(&nzb, "/tmp/some", 0, None).unwrap();
    let file = queue.list_files(job_id)[1].id;
    let (_, plan) = prepare_assembly(&mut queue, file).unwrap();
    assert!(plan.parts.is_empty());
    assert_eq!((plan.missing, plan.crc_mismatches), (2, 0));
}

#[test]
fn resume_after_partial_download() {
    let payload_a = b"AAAA-first-segment-payload-here";
    let payload_b = b"BBBB-second-segment-payload-here!!";

    let nzb = build_nzb(&[(1, "a@x"), (2, "b@x")], "resume");
    let mut queue = QueueManager::open_in_memory();
    let job_id = queue.add_job(&nzb, "/tmp/resume", 0, None).unwrap();
    let mut parts = HashMap::new();

    let first: Vec<(&str, &[u8])> = vec![("a@x", payload_a)];
    run_job(&mut queue, job_id, &first, "resume.bin", &mut parts);

    let job = queue.get_job(job_id).unwrap();
    assert_eq!(job.state, JobState::Failed);
    let files = queue.list_files(job_id);
    let segments = queue.list_segments(files[0].id);
    let seg1_state = segments.iter().find(|s| s.number == 1).unwrap().state;
    let seg2_state = segments.iter().find(|s| s.number == 2).unwrap().state;
    assert_eq!(seg1_state, SegmentState::Done);
    assert_eq!(seg2_state, SegmentState::Missing);

    queue.set_segment_state(files[0].id, 2, SegmentState::Pending);
    queue.set_job_state(job_id, JobState::Queued).unwrap();

    let second: Vec<(&str, &[u8])> = vec![("a@x", payload_a), ("b@x", payload_b)];
    let (events, assembled) = run_job(&mut queue, job_id, &second, "resume.bin", &mut parts);
    let segment_done_count =
        events.iter().filter(|e| matches!(e, ProgressEvent::SegmentDone { .. })).count();
    assert_eq!(segment_done_count, 1, "only the pending segment should be fetched on resume");

    let expected = [payload_a.as_ref(), payload_b.as_ref()].concat();
    assert_eq!(assembled["resume.bin"], expected);
    let job = queue.get_job(job_id).unwrap();
    assert_eq!(job.state, JobState::Complete);
    assert_eq!(job.error, None);
}

#[test]
fn real_name_is_used_for_the_file() {
    let nzb = build_nzb(&[(1, "a@x")], "b7f3");
    let mut queue = QueueManager::open_in_memory();
    let job_id = queue.add_job(&nzb, "/tmp/b7f3", 0, Some("Shown")).unwrap();
    assert_eq!(queue.get_job(job_id).unwrap().name, "Shown");
    let articles: Vec<(&str, &[u8])> = vec![("a@x", b"data")];
    let mut parts = HashMap::new();
    let (_, files) = run_job(&mut queue, job_id, &articles, " dir/movie.mkv ", &mut parts);
    assert_eq!(files["dir_movie.mkv"], b"data");
    assert_eq!(queue.list_files(job_id)[0].yenc_name.as_deref(), Some("dir_movie.mkv"));
}

fn segment(id: i64, number: u32, state: SegmentState, missing: bool) -> QueueSegment {
    QueueSegment {
        id,
        file_id: 1,
        number,
        message_id: format!("{id}@x"),
        bytes: 10,
        missing,
        state,
    }
}

fn file(id: i64) -> QueueFile {
    QueueFile {
        id,
        job_id: 1,
        filename: "f.bin".to_string(),
        yenc_name: None,
        subject: String::new(),
        poster: String::new(),
        date: 0,
        segment_count: 3,
        file_index: 0,
    }
}

#[test]
fn work_is_tried_four_times() {
    let pending = vec![(file(1), vec![segment(7, 1, SegmentState::Pending, false)])];
    let mut work = WorkQueue::new(pending);
    assert_eq!(work.len(), 1);
    for _ in 0..4 {
        match work.next() {
            Some(Task::Fetch { file, segment }) => work.put_back(file, segment),
            other => panic!("expected a fetch, got {other:?}"),
        }
    }
    match work.next() {
        Some(Task::GiveUp { file, segment }) => {
            let events = give_up_events(work.file(file), &segment);
            assert_eq!(events.len(), 2);
            assert!(matches!(
                &events[0],
                ProgressEvent::SegmentDone { status: SegmentState::Failed, bytes: 0, .. }
            ));
            match &events[1] {
                ProgressEvent::ArticleError { error, segment, .. } => {
                    assert_eq!(
                        error,
                        "fetch failed after 4 attempts (server unreachable?)"
                    );
                    assert_eq!(*segment, 1);
                }
                other => panic!("unexpected {other:?}"),
            }
        }
        other => panic!("expected to give up, got {other:?}"),
    }
    assert!(work.next().is_none());
}

#[test]
fn work_comes_back_first() {
    let pending = vec![(
        file(1),
        vec![
            segment(1, 1, SegmentState::Pending, false),
            segment(2, 2, SegmentState::Pending, false),
        ],
    )];
    let mut work = WorkQueue::new(pending);
    if let Some(Task::Fetch { file, segment }) = work.next() {
        work.put_back(file, segment);
    }
    match work.next() {
        Some(Task::Fetch { segment, .. }) => assert_eq!(segment.number, 1),
        other => panic!("unexpected {other:?}"),
    }
}

#[test]
fn settling_an_article() {
    let mut worker = Worker::new();
    let f = file(1);
    let s = segment(1, 1, SegmentState::Pending, false);
    let good = Fetched::Decoded { crc_ok: true, crc_unknown: false, name: "real.bin".into() };
    let first = worker.settle(&f, &s, &good);
    assert_eq!(first.state, SegmentState::Done);
    assert_eq!(first.bytes, 10);
    assert!(first.keep_data);
    assert_eq!(first.real_name.as_deref(), Some("real.bin"));
    let second = worker.settle(&f, &s, &good);
    assert_eq!(second.real_name, None);

    let bad = Fetched::Decoded { crc_ok: false, crc_unknown: false, name: "real.bin".into() };
    let settled = worker.settle(&f, &s, &bad);
    assert_eq!(settled.state, SegmentState::CrcMismatch);
    assert!(!settled.keep_data);
    assert_eq!(settled.bytes, 10);

    let settled = worker.settle(&f, &s, &Fetched::Undecodable("broken".into()));
    assert_eq!(settled.state, SegmentState::Failed);
    assert_eq!(settled.events.len(), 2);

    let settled = worker.settle(&f, &s, &Fetched::Missing);
    assert_eq!(settled.state, SegmentState::Missing);
    assert_eq!(settled.bytes, 0);
}

#[test]
fn names_of_parts() {
    assert_eq!(parts_dir_name("movie.mkv"), "movie.mkv.parts");
    assert_eq!(part_name(7), "seg000007");
    assert_eq!(part_name(1234567), "seg1234567");
    assert_eq!(sanitize_yenc_name("  a/b\\c.bin\t"), "a_b_c.bin");
    let once = sanitize_yenc_name(" / a \\ ");
    assert_eq!(once, "_ a _");
    assert_eq!(sanitize_yenc_name(&once), once);
}

#[test]
fn articles_are_missing_only_if_every_server_says_so() {
    let mut log = FetchLog::new();
    assert_eq!(log.note(ServerAnswer::Missing), ConnectionFate::Reuse);
    assert_eq!(log.outcome(), ArticleOutcome::Missing);
    assert_eq!(log.note(ServerAnswer::Broken), ConnectionFate::Discard);
    assert_eq!(log.outcome(), ArticleOutcome::Retry);

    let mut log = FetchLog::new();
    assert_eq!(log.outcome(), ArticleOutcome::Retry);
    assert_eq!(log.note(ServerAnswer::Unreachable), ConnectionFate::NoConnection);
    assert_eq!(log.note(ServerAnswer::Missing), ConnectionFate::Reuse);
    assert_eq!(log.outcome(), ArticleOutcome::Retry);
    assert_eq!(log.note(ServerAnswer::Article), ConnectionFate::Reuse);
    assert_eq!(log.outcome(), ArticleOutcome::Found);
}

#[test]
fn hopeless_servers_end_a_job() {
    let dns = "NNTP connection failed: failed to LOOKUP address".to_string();
    assert_eq!(precheck_servers(&vec![Err(dns.clone())]), Some(dns.clone()));
    assert_eq!(precheck_servers(&vec![Err(dns.clone()), Ok(())]), None);
    assert_eq!(precheck_servers(&vec![Err("connection refused".to_string())]), None);
    let refused = "connection refused".to_string();
    let other = "cannot resolve host".to_string();
    assert_eq!(precheck_servers(&vec![Err(refused.clone()), Err(dns.clone())]), None);
    assert_eq!(precheck_servers(&vec![Err(dns.clone()), Err(refused)]), None);
    assert_eq!(precheck_servers(&vec![Err(dns.clone()), Err(other.clone())]), Some(other));
    assert_eq!(precheck_servers(&vec![]), None);

    let mut queue = QueueManager::open_in_memory();
    let id = queue.add_job(&build_nzb(&[(1, "a@x")], "d"), "/d", 0, None).unwrap();
    begin_job(&mut queue, id).unwrap();
    let events = abandon_job(&mut queue, id, &dns);
    let message = format!("Cannot reach NNTP server — check the hostname in Settings: {dns}");
    assert!(matches!(
        &events[1],
        ProgressEvent::JobFinished { completed: 0, failed: 0 }
    ));
    match &events[0] {
        ProgressEvent::ArticleError { filename, segment, error } => {
            assert_eq!((filename.as_str(), *segment, error), ("", 0, &message));
        }
        other => panic!("unexpected {other:?}"),
    }
    let job = queue.get_job(id).unwrap();
    assert_eq!(job.state, JobState::Failed);
    assert_eq!(job.error, Some(message));
    assert_eq!(queue.current_downloading_job(), None);
}

#[test]
fn a_second_job_cannot_begin() {
    let mut queue = QueueManager::open_in_memory();
    let a = queue.add_job(&build_nzb(&[(1, "a@x")], "a"), "/a", 0, None).unwrap();
    let b = queue.add_job(&build_nzb(&[(1, "b@x")], "b"), "/b", 0, None).unwrap();
    begin_job(&mut queue, a).unwrap();
    assert_eq!(begin_job(&mut queue, b), Err(QueueError::SlotTaken));
    assert_eq!(queue.current_downloading_job(), Some(a));
}

#[test]
fn holes_of_a_file() {
    let segments = vec![
        segment(1, 1, SegmentState::Done, false),
        segment(2, 2, SegmentState::CrcMismatch, false),
        segment(3, 3, SegmentState::Failed, false),
        segment(4, 4, SegmentState::Pending, true),
        segment(5, 6, SegmentState::Done, false),
    ];
    assert_eq!(slot_of(&segments, 1), Slot::Part);
    assert_eq!(slot_of(&segments, 2), Slot::Corrupt);
    assert_eq!(slot_of(&segments, 3), Slot::Missing);
    assert_eq!(slot_of(&segments, 4), Slot::Missing);
    assert_eq!(slot_of(&segments, 5), Slot::Missing);
    let plan = plan_assembly(&segments, 6);
    assert_eq!(plan.parts, vec![1, 6]);
    assert_eq!((plan.missing, plan.crc_mismatches), (3, 1));
    let outcome = plan.outcome(1);
    assert_eq!(outcome, FileOutcome { missing: 4, crc_mismatches: 1 });
    assert!(!outcome.complete());
    assert!(FileOutcome { missing: 0, crc_mismatches: 0 }.complete());
}

#[test]
fn states_are_written_in_batches() {
    let mut buffer = StateBuffer::new();
    assert!(buffer.is_empty());
    for n in 0..199 {
        assert!(!buffer.push(1, n, SegmentState::Done));
    }
    assert!(buffer.push(1, 199, SegmentState::Done));
    assert_eq!(buffer.drain().len(), 200);
    assert!(buffer.is_empty());
}

fn server(host: &str, max_connections: u32) -> ServerConfig {
    let mut s = ServerConfig::localhost();
    s.host = host.to_string();
    s.max_connections = max_connections;
    s
}

#[test]
fn connections_are_counted() {
    let mut pool = ConnectionPool::new(&vec![server("a", 2), server("b", 0)]);
    assert_eq!((pool.limit(0), pool.limit(1)), (2, 1));
    assert_eq!(pool.active_count(), 0);
    assert_eq!(pool.checkout(0), Checkout::Open);
    assert_eq!(pool.active_count(), 1);
    pool.put(0);
    assert_eq!(pool.checkout(0), Checkout::Reuse);
    assert_eq!(pool.active_count(), 1);
    pool.drop_connection(0);
    assert_eq!(pool.active_count(), 0);

    assert!(pool.may_open());
    pool.opened(1);
    assert_eq!(pool.active_count(), 1);
    assert_eq!(pool.take_idle(), Some(1));
    assert_eq!(pool.take_idle(), None);
    pool.probed(1, false);
    assert_eq!(pool.active_count(), 0);
    pool.opened(0);
    pool.opened(0);
    pool.opened(1);
    assert!(!pool.may_open());
}

#[test]
fn counters_of_an_engine() {
    let engine = Engine::new(vec![server("a", 3)], 4);
    assert_eq!(engine.workers(), 4);
    assert_eq!(engine.active_connections(), 0);
    assert!(engine.needs_probe());
    assert_eq!(engine.servers().len(), 1);
    let mut stats: PerfStats = engine.stats();
    assert_eq!(stats, PerfStats::default());
    for us in [20_000, 20_001, 100_001, 500_001, 2_000_001] {
        stats.bucket(us);
    }
    stats.count_article(700);
    assert_eq!(
        (
            stats.fetch_le_20ms,
            stats.fetch_le_100ms,
            stats.fetch_le_500ms,
            stats.fetch_le_2000ms,
            stats.fetch_gt_2000ms,
            stats.articles,
            stats.bytes,
        ),
        (1, 1, 1, 1, 1, 1, 700)
    );
}
