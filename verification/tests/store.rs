//! The queue of jobs.
use nobz::nzb::{Nzb, NzbFile, NzbSegment};
use nobz::queue::{JobState, QueueError, QueueManager, SegmentState};

fn nzb(title: &str, files: &[(&str, u32)]) -> Nzb {
    Nzb {
        title: Some(title.to_string()),
        passwords: vec!["pw".to_string()],
        files: files
            .iter()
            .map(|(name, n)| NzbFile {
                filename: name.to_string(),
                subject: "s".to_string(),
                poster: "p".to_string(),
                date: 5,
                segment_count: *n,
                segments: (1..=*n)
                    .map(|number| NzbSegment {
                        number,
                        message_id: format!("{name}-{number}@x"),
                        bytes: 100,
                        missing: false,
                    })
                    .collect(),
            })
            .collect(),
    }
}

#[test]
fn states_have_words() {
    for s in [
        JobState::Fetching,
        JobState::Queued,
        JobState::Downloading,
        JobState::Complete,
        JobState::Failed,
    ] {
        assert_eq!(JobState::from_str_lossy(s.as_str()), s);
    }
    assert_eq!(JobState::Downloading.as_str(), "downloading");
    assert_eq!(JobState::from_str_lossy("paused"), JobState::Queued);
    for s in [
        SegmentState::Pending,
        SegmentState::Done,
        SegmentState::Missing,
        SegmentState::CrcMismatch,
        SegmentState::Failed,
    ] {
        assert_eq!(SegmentState::from_str_lossy(s.as_str()), s);
    }
    assert_eq!(SegmentState::from_str_lossy("?"), SegmentState::Pending);
}

#[test]
fn a_job_and_its_parts() {
    let mut q = QueueManager::open_in_memory();
    let id = q.add_job(&nzb("T", &[("a", 2), ("b", 1)]), "/out", 3, None).unwrap();
    let job = q.get_job(id).unwrap();
    assert_eq!((job.name.as_str(), job.output_dir.as_str(), job.priority), ("T", "/out", 3));
    assert_eq!((job.file_count, job.total_segments, job.total_bytes), (2, 3, 300));
    assert_eq!(job.state, JobState::Queued);
    let files = q.list_files(id);
    let names: Vec<&str> = files.iter().map(|f| f.filename.as_str()).collect();
    assert_eq!(names, vec!["a", "b"]);
    let numbers: Vec<u32> = q.list_segments(files[0].id).iter().map(|s| s.number).collect();
    assert_eq!(numbers, vec![1, 2]);
    assert_eq!(q.get_file(files[1].id).unwrap().filename, "b");
    assert_eq!(q.get_job(99).unwrap_err(), QueueError::NoSuchJob);
    assert_eq!(q.get_file(99).unwrap_err(), QueueError::NoSuchFile);

    q.set_job_archive_password(id, Some("secret"));
    assert_eq!(q.get_job(id).unwrap().archive_password.as_deref(), Some("secret"));
    q.set_job_error(id, Some("bad"));
    assert_eq!(q.get_job(id).unwrap().error.as_deref(), Some("bad"));
    q.set_file_yenc_name(files[0].id, "real");
    q.set_file_yenc_name(files[0].id, "other");
    assert_eq!(q.get_file(files[0].id).unwrap().yenc_name.as_deref(), Some("real"));

    q.delete_job(id);
    assert!(q.list_jobs().is_empty());
    assert!(q.list_files(id).is_empty());
    assert!(q.list_segments(files[0].id).is_empty());
}

#[test]
fn jobs_come_by_priority() {
    let mut q = QueueManager::open_in_memory();
    let a = q.add_job(&nzb("a", &[("f", 1)]), "/a", 5, None).unwrap();
    let b = q.add_job(&nzb("b", &[("f", 1)]), "/b", 1, None).unwrap();
    let c = q.add_job(&nzb("c", &[("f", 1)]), "/c", 5, None).unwrap();
    let order: Vec<i64> = q.list_jobs().iter().map(|j| j.id).collect();
    assert_eq!(order, vec![b, a, c]);
    assert_eq!(q.next_queued_job().unwrap().id, b);
    q.set_job_priority(c, 0);
    assert_eq!(q.next_queued_job().unwrap().id, c);
}

#[test]
fn one_download_at_a_time() {
    let mut q = QueueManager::open_in_memory();
    let a = q.add_job(&nzb("a", &[("f", 1)]), "/a", 0, None).unwrap();
    let b = q.add_job(&nzb("b", &[("f", 1)]), "/b", 0, None).unwrap();
    assert!(q.claim_download_slot(a));
    assert!(!q.claim_download_slot(b));
    assert!(!q.claim_download_slot(a));
    assert_eq!(q.next_queued_job().unwrap().id, b);
    assert_eq!(q.set_job_state(b, JobState::Downloading), Err(QueueError::SlotTaken));
    assert_eq!(q.current_downloading_job(), Some(a));
    q.release_download_slot(a, JobState::Failed);
    q.release_download_slot(a, JobState::Complete);
    assert_eq!(q.get_job(a).unwrap().state, JobState::Failed);
    assert!(q.claim_download_slot(b));
    assert_eq!(q.recover_interrupted(&vec![]), 1);
    assert_eq!(q.get_job(b).unwrap().state, JobState::Queued);
}

#[test]
fn stopped_jobs_are_interrupted_ones() {
    let mut q = QueueManager::open_in_memory();
    let a = q.add_job(&nzb("a", &[("f", 1)]), "/a", 0, None).unwrap();
    let b = q.add_job(&nzb("b", &[("f", 1)]), "/b", 0, None).unwrap();
    let c = q.add_job(&nzb("c", &[("f", 1)]), "/c", 0, None).unwrap();
    assert!(q.claim_download_slot(a));
    assert_eq!(q.recover_interrupted(&vec![c, 99]), 2);
    for id in [a, b, c] {
        assert_eq!(q.get_job(id).unwrap().state, JobState::Queued);
    }
    assert_eq!(q.recover_interrupted(&vec![]), 0);
}

#[test]
fn files_are_done_once_nothing_of_them_is_left() {
    let mut q = QueueManager::open_in_memory();
    let id = q.add_job(&nzb("T", &[("a", 2)]), "/out", 0, None).unwrap();
    let file = q.list_files(id)[0].id;
    let mut done = |state: SegmentState| {
        q.set_segment_state(file, 1, SegmentState::Done);
        q.set_segment_state(file, 2, state);
        q.refresh_job_counts(file).unwrap();
        q.get_job(id).unwrap().files_done
    };
    assert_eq!(done(SegmentState::Pending), 0);
    assert_eq!(done(SegmentState::Failed), 0);
    assert_eq!(done(SegmentState::Missing), 1);
    assert_eq!(done(SegmentState::CrcMismatch), 1);
    assert_eq!(done(SegmentState::Done), 1);
}

#[test]
fn filled_jobs_are_like_added_ones() {
    let mut release = nzb("T", &[("a", 2), ("b", 1)]);
    release.files[0].segments[1].missing = true;
    let mut q = QueueManager::open_in_memory();
    let late = q.create_fetching_job("wait", "/w", 4).unwrap();
    let early = q.add_job(&release, "/out", 4, None).unwrap();
    q.populate_job(late, &release, "/out", None).unwrap();
    let shown = |id: i64| {
        let j = q.get_job(id).unwrap();
        let segments: Vec<Vec<(u32, String, u64, bool, SegmentState)>> = q
            .list_files(id)
            .iter()
            .map(|f| {
                q.list_segments(f.id)
                    .into_iter()
                    .map(|s| (s.number, s.message_id, s.bytes, s.missing, s.state))
                    .collect()
            })
            .collect();
        (j.name, j.output_dir, j.priority, j.state, j.file_count, j.total_bytes, segments)
    };
    assert_eq!(shown(late), shown(early));
    assert_eq!(shown(late).6[0][1].4, SegmentState::Missing);
    assert_eq!(shown(late).6[1][0].4, SegmentState::Pending);
}

#[test]
fn copies_of_a_queue_are_apart() {
    let mut q = QueueManager::open_in_memory();
    let a = q.add_job(&nzb("a", &[("f", 1)]), "/a", 0, None).unwrap();
    let mut copy = q.clone();
    copy.delete_job(a);
    assert!(copy.list_jobs().is_empty());
    assert_eq!(q.get_job(a).unwrap().name, "a");
}

#[test]
fn fetching_jobs_are_filled_or_removed() {
    let mut q = QueueManager::open_in_memory();
    let a = q.create_fetching_job("wait", "/w", 0).unwrap();
    let b = q.create_fetching_job("gone", "/g", 0).unwrap();
    assert_eq!(q.get_job(a).unwrap().state, JobState::Fetching);
    q.populate_job(a, &nzb("T", &[("f", 2)]), "/out", Some("shown")).unwrap();
    let job = q.get_job(a).unwrap();
    assert_eq!((job.state, job.name.as_str(), job.total_segments), (JobState::Queued, "shown", 2));
    assert_eq!(q.recover_interrupted(&vec![]), 0);
    assert!(q.get_job(b).is_err());
    assert_eq!(
        q.populate_job(b, &nzb("T", &[("f", 2)]), "/out", None),
        Err(QueueError::NoSuchJob)
    );
}

#[test]
fn only_pending_segments_are_work() {
    let mut q = QueueManager::open_in_memory();
    let id = q.add_job(&nzb("T", &[("a", 3), ("b", 1)]), "/out", 0, None).unwrap();
    let files = q.list_files(id);
    q.set_segment_states_batch(&vec![
        (files[0].id, 1, SegmentState::Done),
        (files[0].id, 2, SegmentState::Failed),
        (files[1].id, 1, SegmentState::Done),
    ]);
    let work = q.pending_segments(id);
    assert_eq!(work.len(), 1);
    assert_eq!(work[0].0.id, files[0].id);
    let numbers: Vec<u32> = work[0].1.iter().map(|s| s.number).collect();
    assert_eq!(numbers, vec![3]);
    assert!(q.file_has_pending(files[0].id));
    assert!(!q.file_has_pending(files[1].id));

    assert_eq!(q.reset_failed_segments(id), 1);
    assert_eq!(q.pending_segments(id)[0].1.len(), 2);

    q.mark_segment_hopeless(files[0].id, 2);
    q.mark_segment_crc_mismatch(files[0].id, 3);
    let states: Vec<SegmentState> = q.list_segments(files[0].id).iter().map(|s| s.state).collect();
    assert_eq!(
        states,
        vec![SegmentState::Done, SegmentState::Missing, SegmentState::CrcMismatch]
    );

    q.refresh_job_counts(files[0].id).unwrap();
    let job = q.get_job(id).unwrap();
    assert_eq!((job.segments_done, job.downloaded_bytes, job.files_done), (4, 200, 2));
    q.set_segment_state(files[0].id, 3, SegmentState::Failed);
    q.refresh_job_counts(files[0].id).unwrap();
    assert_eq!(q.get_job(id).unwrap().segments_done, 3);
    q.mark_segment_crc_mismatch(files[0].id, 3);
    assert_eq!(q.refresh_job_counts(99), Err(QueueError::NoSuchFile));
    let stats = q.job_file_stats(id).unwrap();
    assert_eq!(
        (stats[0].segments_done, stats[0].segments_missing, stats[0].downloaded_bytes),
        (3, 1, 100)
    );
}

#[test]
fn a_stored_queue_is_taken_up_again() {
    let mut q = QueueManager::open_in_memory();
    let id = q.add_job(&nzb("T", &[("a", 1)]), "/out", 0, None).unwrap();
    let jobs = q.list_jobs();
    let files = q.list_files(id);
    let segments = q.list_segments(files[0].id);
    let next = (id + 1, files[0].id + 1, segments[0].id + 1);
    let again = QueueManager::restore(jobs, files, segments, next.0, next.1, next.2).unwrap();
    assert_eq!(again.get_job(id).unwrap().name, "T");
    assert_eq!(again.pending_segments(id).len(), 1);

    let broken = QueueManager::restore(vec![], again.list_files(id), vec![], 1, 2, 1);
    assert!(matches!(broken, Err(QueueError::Corrupt)));
}

#[test]
fn sums_that_do_not_fit_are_refused() {
    let mut big = nzb("T", &[("a", 2)]);
    big.files[0].segments[0].bytes = i64::MAX as u64;
    big.files[0].segments[1].bytes = i64::MAX as u64;
    assert!(big.is_countable());
    let mut q = QueueManager::open_in_memory();
    let id = q.add_job(&big, "/out", 0, None).unwrap();
    let file = q.list_files(id)[0].id;
    q.set_segment_state(file, 1, SegmentState::Done);
    q.refresh_job_counts(file).unwrap();
    q.set_segment_state(file, 2, SegmentState::Done);
    assert_eq!(q.refresh_job_counts(file), Err(QueueError::Overflow));

    big.files[0].segments[1].bytes = u64::MAX;
    assert!(!big.is_countable());
    let mut many = nzb("T", &[("a", 1), ("b", 1)]);
    many.files[0].segment_count = u32::MAX;
    assert!(!many.is_countable());
}

#[test]
fn names_and_passwords_of_a_release() {
    let n = nzb("T", &[("a", 2)]);
    assert_eq!(n.name_of_job(None), "T");
    assert_eq!(n.name_of_job(Some("D")), "D");
    assert_eq!(n.password(None).as_deref(), Some("pw"));
    assert_eq!(n.password(Some("mine".to_string())).as_deref(), Some("mine"));
    let bare = Nzb { title: None, passwords: vec![], files: nzb("", &[("file.bin", 1)]).files };
    assert_eq!(bare.name_of_job(None), "file.bin");
    assert_eq!(bare.password(None), None);
}
