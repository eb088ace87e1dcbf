//! Unpacking and what follows.
use nobz::postprocess::{
    conclude, decide_cleanup, decide_move, does_go_on, find_archives, is_archive_or_par2,
    is_damaged, is_par2_name, is_split_7z_first, is_split_archive_part, wants_cleanup,
    wants_verify, Action, CleanAction, Done, MoveAction, Pipeline, PostProcessConfig,
    PostProcessStatus, UnpackTally, VerifyReport,
};
use nobz::unpack::{
    generic_rar_names, is_rar_part_name, is_volume_message, looks_generic_rar_name,
    normalize_rar_volumes, split_part_name, unpack, Extraction, UnpackError, UnpackMethod,
    UnpackReport, VolumeKind,
};

fn names(v: &[&str]) -> Vec<String> {
    v.iter().map(|s| s.to_string()).collect()
}

#[test]
fn archives_by_name() {
    assert_eq!(unpack("a.rar").unwrap(), UnpackMethod::Rar);
    assert_eq!(unpack("a.part01.RAR").unwrap(), UnpackMethod::Rar);
    assert_eq!(unpack("a.7z").unwrap(), UnpackMethod::Sevenz);
    assert_eq!(unpack("A.7Z.001").unwrap(), UnpackMethod::SplitSevenz);
    assert_eq!(
        unpack("a.txt").unwrap_err().message(),
        "unsupported archive format: unknown archive format: txt"
    );
    assert_eq!(
        unpack("noext").unwrap_err().message(),
        "unsupported archive format: unknown archive format: "
    );
    assert_eq!(
        unpack("a.rar.002").unwrap_err().message(),
        "unsupported archive format: split file part .002 — reassemble manually"
    );
}

#[test]
fn parts_by_name() {
    assert!(is_rar_part_name("movie.R05"));
    assert!(!is_rar_part_name("movie.part01.rar"));
    assert!(!is_rar_part_name("movie.rar"));
    assert!(looks_generic_rar_name("abc.001.rar"));
    assert!(looks_generic_rar_name("ABC.001.RAR"));
    assert!(!looks_generic_rar_name("abc.rar"));
    assert!(!looks_generic_rar_name("abc.part1.rar"));
    assert_eq!(
        generic_rar_names(&names(&["b.002.RAR", "x.txt", "a.part1.rar", "a.001.rar"])),
        names(&["a.001.rar", "b.002.RAR"])
    );
    assert_eq!(split_part_name("x.7z.001", 2).as_deref(), Some("x.7z.002"));
    assert_eq!(split_part_name("x.7z", 2), None);
}

#[test]
fn volumes_are_renamed_in_order() {
    let found = vec![
        ("a.001.rar".to_string(), VolumeKind::Subsequent),
        ("b.002.rar".to_string(), VolumeKind::First),
        ("c.003.rar".to_string(), VolumeKind::Single),
        ("d.004.rar".to_string(), VolumeKind::Subsequent),
        ("e.r07".to_string(), VolumeKind::Subsequent),
    ];
    let plan = normalize_rar_volumes(&found, &names(&["a.001.rar", "my_rel.nfo"]), " my/rel ");
    let pairs: Vec<(&str, &str)> = plan.iter().map(|p| (p.0.as_str(), p.1.as_str())).collect();
    assert_eq!(
        pairs,
        vec![
            ("b.002.rar", "my_rel.rar"),
            ("a.001.rar", "my_rel.r00"),
            ("d.004.rar", "my_rel.r01"),
        ]
    );
    assert!(normalize_rar_volumes(&vec![], &vec![], "x").is_empty());
    let first = vec![("x.001.rar".to_string(), VolumeKind::Subsequent)];
    assert_eq!(normalize_rar_volumes(&first, &vec![], "  ")[0].1, "release.rar");

    // A file that is there keeps its name, whatever it is.
    let present = names(&["my_rel.r01", "my_rel_.rar"]);
    let plan = normalize_rar_volumes(&found, &present, "my_rel");
    let new: Vec<&str> = plan.iter().map(|p| p.1.as_str()).collect();
    assert_eq!(new, vec!["my_rel__.rar", "my_rel__.r00", "my_rel__.r01"]);
    assert!(is_volume_message("could not open next volume"));
    assert!(!is_volume_message("bad crc"));
}

#[test]
fn volumes_get_different_names() {
    let found: Vec<(String, VolumeKind)> =
        (0..120).map(|n| (format!("x{n}.001.rar"), VolumeKind::Subsequent)).collect();
    let plan = normalize_rar_volumes(&found, &vec![], "s");
    assert_eq!(plan[11].1, "s.r10");
    assert_eq!(plan[119].1, "s.r118");
    let mut new: Vec<&str> = plan.iter().map(|p| p.1.as_str()).collect();
    new.sort();
    new.dedup();
    assert_eq!(new.len(), 120);
}

#[test]
fn extraction_is_counted() {
    let mut e = Extraction::new();
    e.entry(false);
    e.extracted("a".to_string(), 5);
    e.entry(true);
    e.extracted("b".to_string(), 7);
    let r = e.finish();
    assert_eq!(r.extracted_files, names(&["a", "b"]));
    assert_eq!((r.total_bytes, r.was_encrypted), (12, true));
    assert!(matches!(Extraction::new().stop("x"), Err(UnpackError::Unrar(_))));
}

#[test]
fn unpack_messages() {
    assert_eq!(UnpackError::Unrar("x".into()).message(), "unrar error: x");
    assert_eq!(UnpackError::Sevenz("x".into()).message(), "7z error: x");
    assert_eq!(UnpackError::Io("x".into()).message(), "I/O error: x");
    assert_eq!(
        UnpackError::Unsupported("x".into()).message(),
        "unsupported archive format: x"
    );
}

fn report(n: usize) -> UnpackReport {
    UnpackReport {
        extracted_files: (0..n).map(|i| i.to_string()).collect(),
        total_bytes: 1,
        was_encrypted: false,
    }
}

#[test]
fn what_a_download_comes_to() {
    let good = Some(VerifyReport { healthy: 2, damaged: 0, missing: 0 });
    let bad = Some(VerifyReport { healthy: 1, damaged: 1, missing: 0 });
    assert!(!is_damaged(&good) && is_damaged(&bad) && !is_damaged(&None));
    assert!(wants_verify(false, 1) && !wants_verify(true, 1) && !wants_verify(false, 0));

    let mut ok = UnpackTally::new();
    ok.note(Ok(report(3)));
    assert!(matches!(conclude(&good, 1, &ok), PostProcessStatus::Complete));
    assert!(matches!(conclude(&None, 1, &ok), PostProcessStatus::UnpackedWithoutVerify));
    assert!(matches!(
        conclude(&bad, 1, &ok),
        PostProcessStatus::Damaged { healthy: 1, damaged: 1, missing: 0 }
    ));
    let none = UnpackTally::new();
    assert!(matches!(conclude(&None, 0, &none), PostProcessStatus::NoArchives));
    let mut failed = UnpackTally::new();
    failed.note(Err(UnpackError::Unrar("broken".to_string())));
    assert!(failed.has_failed());
    let status = conclude(&None, 1, &failed);
    match &status {
        PostProcessStatus::UnpackFailed(m) => assert!(m.contains("broken"), "{m}"),
        other => panic!("unexpected {other:?}"),
    }
    assert!(!does_go_on(&status));
    assert!(does_go_on(&PostProcessStatus::Complete));
    assert!(wants_cleanup(true, 1) && !wants_cleanup(false, 1) && !wants_cleanup(true, 0));
}

#[test]
fn archives_in_a_directory() {
    assert_eq!(
        find_archives(&names(&["m.part02.rar", "m.part01.rar", "n.7z", "x.mkv"])),
        names(&["m.part01.rar", "n.7z"])
    );
    assert!(is_par2_name("a.PAR2"));
    assert!(is_split_7z_first("a.7z.001"));
    assert!(is_split_archive_part("a.7z.002"));
    assert!(is_split_archive_part("A.7Z.002") && is_split_7z_first("A.7Z.001"));
    assert!(!is_split_archive_part("a.mkv"));
    assert!(is_archive_or_par2("a.par2") && is_archive_or_par2("a.rar"));
    assert!(is_archive_or_par2("A.RAR"));
    assert!(!is_archive_or_par2("a.mkv"));
}

#[test]
fn one_rar_file_is_unpacked() {
    assert_eq!(
        find_archives(&names(&["b.RAR", ".rar", "a.rar", "c.7z", "d.7z.001"])),
        names(&["a.rar", "c.7z", "d.7z.001"])
    );
    assert_eq!(find_archives(&names(&[".rar", "c.7z"])), names(&[".rar", "c.7z"]));
}

#[test]
fn what_is_moved_and_removed() {
    assert_eq!(decide_move("a.mkv", false, false), MoveAction::Move);
    assert_eq!(decide_move("a.rar", false, false), MoveAction::Leave);
    assert_eq!(decide_cleanup("a.rar", false), CleanAction::RemoveFile);
    assert_eq!(decide_cleanup("a.mkv", false), CleanAction::Keep);
}

fn config(cleanup_archives: bool, skip_verify: bool) -> PostProcessConfig {
    PostProcessConfig {
        download_dir: "/in".to_string(),
        completed_dir: "/out".to_string(),
        category: None,
        cleanup_archives,
        archive_password: None,
        skip_verify,
    }
}

#[test]
fn a_download_goes_its_way() {
    let mut p = Pipeline::new(&config(true, false), 1);
    assert!(matches!(p.action(), Action::Verify));
    p.advance(Done::Moved);
    assert!(matches!(p.action(), Action::Verify));
    p.advance(Done::Verified(VerifyReport { healthy: 1, damaged: 0, missing: 0 }));
    assert!(matches!(p.action(), Action::List));
    p.advance(Done::Listed(names(&["b.7z", "a.rar", "x.nfo"])));
    assert!(matches!(p.action(), Action::Unpack(n) if n == "a.rar"));
    p.advance(Done::Unpacked(Ok(report(2))));
    assert!(matches!(p.action(), Action::Unpack(n) if n == "b.7z"));
    p.advance(Done::Unpacked(Err(UnpackError::Unsupported("odd".to_string()))));
    assert!(matches!(p.action(), Action::Move { unpacked: true }));
    p.advance(Done::Moved);
    assert!(matches!(p.action(), Action::Cleanup));
    p.advance(Done::Cleaned);
    assert!(matches!(p.action(), Action::Finish));
    let r = p.into_report("/in", "/out");
    assert!(matches!(r.status, PostProcessStatus::Complete));
    assert_eq!(r.unpack.unwrap().extracted_files.len(), 2);
    assert_eq!(r.final_dir, "/out");
}

#[test]
fn a_damaged_download_stays() {
    let mut p = Pipeline::new(&config(true, false), 1);
    p.advance(Done::Verified(VerifyReport { healthy: 1, damaged: 0, missing: 2 }));
    assert!(matches!(p.action(), Action::Finish));
    let r = p.into_report("/in", "/out");
    assert!(matches!(
        r.status,
        PostProcessStatus::Damaged { healthy: 1, damaged: 0, missing: 2 }
    ));
    assert_eq!(r.final_dir, "/in");
    assert!(r.unpack.is_none());
}

#[test]
fn a_failed_archive_ends_the_way() {
    let mut p = Pipeline::new(&config(false, true), 4);
    assert!(matches!(p.action(), Action::List));
    p.advance(Done::Listed(names(&["a.rar", "b.7z"])));
    p.advance(Done::Unpacked(Err(UnpackError::Unrar("bad".to_string()))));
    assert!(matches!(p.action(), Action::Unpack(_)));
    p.advance(Done::Unpacked(Ok(report(1))));
    assert!(matches!(p.action(), Action::Finish));
    let r = p.into_report("/in", "/out");
    assert!(matches!(&r.status, PostProcessStatus::UnpackFailed(m) if m == "unrar error: bad"));
    assert_eq!(r.final_dir, "/in");

    let mut p = Pipeline::new(&config(true, true), 0);
    p.advance(Done::Listed(names(&["x.mkv"])));
    assert!(matches!(p.action(), Action::Move { unpacked: false }));
    p.advance(Done::Moved);
    assert!(matches!(p.action(), Action::Finish));
    assert!(matches!(p.into_report("/in", "/out").status, PostProcessStatus::NoArchives));
}
