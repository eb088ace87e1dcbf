//! What happens to a download once it is complete: verify it, unpack it, move the files to
//! their place and clean up.
//!
//! Damaged files are not repaired; a download that has some is left as it is.
use vstd::prelude::*;

use crate::order;
use crate::order::sort;
use crate::text;
use crate::text::{chars_of, ends_with, extension_of, is_same_but_case, join, same_text, to_lowercase};
use crate::unpack;
use crate::unpack::{ByName, UnpackError, UnpackReport, UnpackView};

verus! {

/// What to do with a download.
#[derive(Debug)]
pub struct PostProcessConfig {
    /// Where the downloaded files are.
    pub download_dir: String,
    /// Where the final files go.
    pub completed_dir: String,
    /// Subfolder of that directory.
    pub category: Option<String>,
    /// Whether archives and parts are removed once they are unpacked.
    pub cleanup_archives: bool,
    /// Password of the archives.
    pub archive_password: Option<String>,
    /// Whether the files are taken as they are, without a check.
    pub skip_verify: bool,
}

/// How many files a check found healthy, damaged and missing.
#[derive(Debug, Clone, Copy, PartialEq, Eq, Structural)]
pub struct VerifyReport {
    pub healthy: u32,
    pub damaged: u32,
    pub missing: u32,
}

/// How it ended.
#[derive(Debug)]
pub enum PostProcessStatus {
    /// The files were checked and are in their place.
    Complete,
    /// The check found damaged or missing files; nothing was unpacked.
    Damaged { healthy: u32, damaged: u32, missing: u32 },
    /// There was nothing to check with; the files were unpacked.
    UnpackedWithoutVerify,
    /// There was nothing to check with, and no archive.
    NoArchives,
    /// Unpacking failed.
    UnpackFailed(String),
}

/// What a [`PostProcessStatus`] says.
pub enum StatusView {
    Complete,
    Damaged { healthy: u32, damaged: u32, missing: u32 },
    UnpackedWithoutVerify,
    NoArchives,
    UnpackFailed(Seq<char>),
}

impl View for PostProcessStatus {
    type V = StatusView;

    open spec fn view(&self) -> StatusView {
        match self {
            PostProcessStatus::Complete => StatusView::Complete,
            PostProcessStatus::Damaged { healthy, damaged, missing } => StatusView::Damaged {
                healthy: *healthy,
                damaged: *damaged,
                missing: *missing,
            },
            PostProcessStatus::UnpackedWithoutVerify => StatusView::UnpackedWithoutVerify,
            PostProcessStatus::NoArchives => StatusView::NoArchives,
            PostProcessStatus::UnpackFailed(m) => StatusView::UnpackFailed(m@),
        }
    }
}

impl Clone for PostProcessStatus {
    fn clone(&self) -> (r: Self)
        ensures
            r@ == self@,
    {
        match self {
            PostProcessStatus::Complete => PostProcessStatus::Complete,
            PostProcessStatus::Damaged { healthy, damaged, missing } => PostProcessStatus::Damaged {
                healthy: *healthy,
                damaged: *damaged,
                missing: *missing,
            },
            PostProcessStatus::UnpackedWithoutVerify => PostProcessStatus::UnpackedWithoutVerify,
            PostProcessStatus::NoArchives => PostProcessStatus::NoArchives,
            PostProcessStatus::UnpackFailed(m) => PostProcessStatus::UnpackFailed(m.clone()),
        }
    }
}

/// What was done.
#[derive(Debug)]
pub struct PostProcessReport {
    /// What the check found, if there was one.
    pub verify: Option<VerifyReport>,
    /// What was unpacked last, if anything was.
    pub unpack: Option<UnpackReport>,
    pub status: PostProcessStatus,
    /// Where the files are.
    pub final_dir: String,
}

/// What a [`PostProcessReport`] says.
pub struct ReportView {
    pub verify: Option<VerifyReport>,
    pub unpack: Option<UnpackView>,
    pub status: StatusView,
    pub final_dir: Seq<char>,
}

impl View for PostProcessReport {
    type V = ReportView;

    open spec fn view(&self) -> ReportView {
        ReportView {
            verify: self.verify,
            unpack: report_of(self.unpack),
            status: self.status@,
            final_dir: self.final_dir@,
        }
    }
}

impl Clone for PostProcessReport {
    fn clone(&self) -> (r: Self)
        ensures
            r@ == self@,
    {
        PostProcessReport {
            verify: self.verify,
            unpack: match &self.unpack {
                Some(u) => Some(u.clone()),
                None => None,
            },
            status: self.status.clone(),
            final_dir: self.final_dir.clone(),
        }
    }
}

/// Whether the files are checked: there are files to check with, and the check is wanted.
pub fn wants_verify(skip_verify: bool, par2_files: usize) -> (r: bool)
    ensures
        r == (!skip_verify && par2_files > 0),
{
    !skip_verify && par2_files > 0
}

/// Whether a check found damage.
pub open spec fn found_damage(verify: Option<VerifyReport>) -> bool {
    verify is Some && (verify->0.damaged > 0 || verify->0.missing > 0)
}

/// Whether a check found damage, so that nothing is unpacked.
pub fn is_damaged(verify: &Option<VerifyReport>) -> (r: bool)
    ensures
        r == found_damage(*verify),
{
    match verify {
        Some(v) => v.damaged > 0 || v.missing > 0,
        None => false,
    }
}

/// How the unpacking of each archive ended.
#[derive(Debug)]
pub struct UnpackTally {
    last: Option<UnpackReport>,
    errors: Vec<String>,
}

/// What an [`UnpackTally`] holds.
#[verifier::ext_equal]
pub struct TallyView {
    /// What was unpacked last.
    pub last: Option<UnpackView>,
    /// The errors, in words.
    pub errors: Seq<Seq<char>>,
}

/// What an optional report says.
pub open spec fn report_of(o: Option<UnpackReport>) -> Option<UnpackView> {
    match o {
        Some(r) => Some(r@),
        None => None,
    }
}

impl View for UnpackTally {
    type V = TallyView;

    closed spec fn view(&self) -> TallyView {
        TallyView { last: report_of(self.last), errors: text::strings(self.errors@) }
    }
}

impl UnpackTally {
    /// No archives.
    pub fn new() -> (r: Self)
        ensures
            r@ == (TallyView { last: None, errors: Seq::empty() }),
    {
        let r = UnpackTally { last: None, errors: Vec::new() };
        assert(r@.errors =~= Seq::empty());
        r
    }

    /// Notes how the unpacking of one more archive ended. A format that is not supported is
    /// passed over.
    pub fn note(&mut self, outcome: Result<UnpackReport, UnpackError>)
        ensures
            final(self)@ == old(self)@.noted(outcome),
    {
        match outcome {
            Ok(v) => {
                self.last = Some(v);
            },
            Err(e) => {
                if let UnpackError::Unsupported(_) = e {
                } else {
                    self.errors.push(e.message());
                    assert(self@.errors =~= old(self)@.errors.push(e@.words()));
                }
            },
        }
    }

    /// Whether an archive could not be unpacked.
    pub fn has_failed(&self) -> (r: bool)
        ensures
            r == (self@.errors.len() > 0),
    {
        self.errors.len() > 0
    }

    /// What was unpacked last.
    pub fn into_last(self) -> (r: Option<UnpackReport>)
        ensures
            report_of(r) == self@.last,
    {
        self.last
    }
}

/// How it ends: damaged files stop it, then a failed archive; else it is complete if the
/// files were checked.
pub open spec fn status_of(verify: Option<VerifyReport>, archives: nat, tally: TallyView) -> StatusView {
    if found_damage(verify) {
        StatusView::Damaged {
            healthy: verify->0.healthy,
            damaged: verify->0.damaged,
            missing: verify->0.missing,
        }
    } else if tally.errors.len() > 0 {
        StatusView::UnpackFailed(text::joined(tally.errors, "; "@))
    } else if verify is Some {
        StatusView::Complete
    } else if archives == 0 {
        StatusView::NoArchives
    } else {
        StatusView::UnpackedWithoutVerify
    }
}

/// How it ends.
pub fn conclude(verify: &Option<VerifyReport>, archives: usize, tally: &UnpackTally) -> (r:
    PostProcessStatus)
    ensures
        r@ == status_of(*verify, archives as nat, tally@),
{
    if let Some(v) = verify {
        if v.damaged > 0 || v.missing > 0 {
            return PostProcessStatus::Damaged {
                healthy: v.healthy,
                damaged: v.damaged,
                missing: v.missing,
            };
        }
    }
    if tally.errors.len() > 0 {
        return PostProcessStatus::UnpackFailed(join(&tally.errors, "; "));
    }
    if verify.is_some() {
        PostProcessStatus::Complete
    } else if archives == 0 {
        PostProcessStatus::NoArchives
    } else {
        PostProcessStatus::UnpackedWithoutVerify
    }
}

/// Whether files are moved and removed: only where nothing is damaged and nothing failed.
pub open spec fn goes_on(status: StatusView) -> bool {
    !(status is Damaged) && !(status is UnpackFailed)
}

/// Whether files are moved.
pub fn does_go_on(status: &PostProcessStatus) -> (r: bool)
    ensures
        r == goes_on(status@),
{
    match status {
        PostProcessStatus::Damaged { healthy, damaged, missing } => false,
        PostProcessStatus::UnpackFailed(m) => false,
        _ => true,
    }
}

/// Damaged downloads are left alone: where the check found damage, nothing is moved or
/// removed, whatever came of the archives.
pub proof fn damaged_downloads_stay(verify: Option<VerifyReport>, archives: nat, tally: TallyView)
    requires
        found_damage(verify),
    ensures
        !goes_on(status_of(verify, archives, tally)),
        status_of(verify, archives, tally) is Damaged,
{
}

/// Whether archives and parts are removed.
pub fn wants_cleanup(cleanup_archives: bool, archives: usize) -> (r: bool)
    ensures
        r == (cleanup_archives && archives > 0),
{
    cleanup_archives && archives > 0
}

/// Whether a file name has an extension, in whatever case.
pub open spec fn has_extension(name: Seq<char>, ext: Seq<char>) -> bool {
    match text::extension(name) {
        Some(e) => text::same_but_case(e, ext),
        None => false,
    }
}

/// Whether a file name has an extension, in whatever case.
pub fn does_have_extension(name: &str, ext: &str) -> (r: bool)
    ensures
        r == has_extension(name@, ext@),
{
    match extension_of(name) {
        Some(e) => {
            let cs = chars_of(&e);
            is_same_but_case(&cs, ext)
        },
        None => false,
    }
}

/// Whether files are checked with the file of this name.
pub fn is_par2_name(name: &str) -> (r: bool)
    ensures
        r == has_extension(name@, "par2"@),
{
    does_have_extension(name, "par2")
}

/// Whether a name, in lower case, is that of a part of a split archive: it ends in `.7z.`
/// and three digits.
pub open spec fn is_split_part(low: Seq<char>) -> bool {
    let n = low.len() as int;
    n >= 7 && low.subrange(n - 7, n - 3) == ".7z."@ && text::all_digits(low.skip(n - 3))
}

/// Whether a name, in lower case, is that of a part of a split archive.
pub fn is_low_split_part(low: &str) -> (r: bool)
    ensures
        r == is_split_part(low@),
{
    let cs = chars_of(low);
    let n: usize = cs.len();
    if n < 7 {
        return false;
    }
    let head = vstd::slice::slice_subrange(cs.as_slice(), n - 7, n - 3);
    if !same_text(&text::string_of(head), ".7z.") {
        return false;
    }
    let mut i: usize = n - 3;
    while i < n
        invariant
            n - 3 <= i <= n,
            n == cs.len(),
            n >= 7,
            cs@ == low@,
            forall|k: int| n - 3 <= k < i ==> text::is_digit(#[trigger] cs@[k]),
        decreases n - i,
    {
        let c: u32 = cs[i] as u32;
        if c < 48 || c > 57 {
            assert(!text::is_digit(low@.skip(n - 3)[i - (n - 3)]));
            return false;
        }
        i += 1;
    }
    true
}

/// Whether a name, in lower case, is that of the first part of a split archive.
pub open spec fn is_first_part(low: Seq<char>) -> bool {
    text::has_suffix(low, ".7z.001"@)
}

/// Whether a name, in lower case, is that of the first part of a split archive.
pub fn is_low_first_part(low: &str) -> (r: bool)
    ensures
        r == is_first_part(low@),
{
    let cs = chars_of(low);
    ends_with(&cs, ".7z.001")
}

/// Whether a name, in lower case, is that of an archive, of a part of one, or of a file to
/// check with.
pub open spec fn is_packed(low: Seq<char>) -> bool {
    text::has_suffix(low, ".rar"@) || text::has_suffix(low, ".7z"@) || is_split_part(low)
        || text::has_suffix(low, ".par2"@)
}

/// Whether a name, in lower case, is that of an archive, of a part of one, or of a file to
/// check with.
pub fn is_low_packed(low: &str) -> (r: bool)
    ensures
        r == is_packed(low@),
{
    let cs = chars_of(low);
    ends_with(&cs, ".rar") || ends_with(&cs, ".7z") || is_low_split_part(low) || ends_with(
        &cs,
        ".par2",
    )
}

/// Whether a name, in lower case, is that of an archive to unpack: of a split archive only
/// the first part is.
pub open spec fn is_archive(low: Seq<char>) -> bool {
    !text::has_suffix(low, ".par2"@) && (is_first_part(low) || (!is_split_part(low) && (
    text::has_suffix(low, ".rar"@) || text::has_suffix(low, ".7z"@))))
}

/// Whether a name, in lower case, is that of an archive to unpack.
pub fn is_low_archive(low: &str) -> (r: bool)
    ensures
        r == is_archive(low@),
{
    let cs = chars_of(low);
    !ends_with(&cs, ".par2") && (is_low_first_part(low) || (!is_low_split_part(low) && (
    ends_with(&cs, ".rar") || ends_with(&cs, ".7z"))))
}

/// Whether a name is that of a part of a split archive, such as `a.7z.002`.
pub fn is_split_archive_part(name: &str) -> (r: bool)
    ensures
        r == is_split_part(text::lowered(name@)),
{
    is_low_split_part(&to_lowercase(name))
}

/// Whether a name is that of the first part of a split archive: `a.7z.001`.
pub fn is_split_7z_first(name: &str) -> (r: bool)
    ensures
        r == is_first_part(text::lowered(name@)),
{
    is_low_first_part(&to_lowercase(name))
}

/// Whether a name is that of an archive, of a part of one, or of a file to check with.
pub fn is_archive_or_par2(name: &str) -> (r: bool)
    ensures
        r == is_packed(text::lowered(name@)),
{
    is_low_packed(&to_lowercase(name))
}

/// The first name with the extension `rar`.
pub open spec fn first_rar(names: Seq<Seq<char>>) -> Option<Seq<char>>
    decreases names.len(),
{
    if names.len() == 0 {
        None
    } else if has_extension(names[0], "rar"@) {
        Some(names[0])
    } else {
        first_rar(names.skip(1))
    }
}

/// Whether a name is kept beside the main RAR file of a list, if there is one: every other name
/// that ends in `.rar` is that of a volume of it.
pub open spec fn is_kept(main: Option<Seq<char>>, name: Seq<char>) -> bool {
    main is None || main == Some(name) || !text::has_suffix(text::lowered(name), ".rar"@)
}

/// The names of a list, without the RAR files beside the first: they are its volumes.
pub open spec fn without_volumes(names: Seq<Seq<char>>) -> Seq<Seq<char>> {
    names.filter(|n: Seq<char>| is_kept(first_rar(names), n))
}

/// Beside the main RAR file no other name that ends in `.rar` is left, and every other archive
/// stays.
pub proof fn one_rar_is_left(names: Seq<Seq<char>>, name: Seq<char>)
    requires
        first_rar(names) is Some,
    ensures
        without_volumes(names).contains(name) <==> names.contains(name) && (first_rar(names)
            == Some(name) || !text::has_suffix(text::lowered(name), ".rar"@)),
{
    let keep = |n: Seq<char>| is_kept(first_rar(names), n);
    if without_volumes(names).contains(name) {
        names.lemma_filter_contains_rev(keep, name);
    }
    if names.contains(name) && keep(name) {
        let k = choose|k: int| 0 <= k < names.len() && names[k] == name;
        names.lemma_filter_contains(keep, k);
    }
}

/// The archives to unpack among the file names of a directory, in dictionary order.
pub open spec fn archives_in(names: Seq<Seq<char>>) -> Seq<Seq<char>> {
    without_volumes(
        order::sorted(
            names.filter(|n: Seq<char>| is_archive(text::lowered(n))),
            unpack::by_name(),
        ),
    )
}

fn find_first_rar(names: &Vec<String>) -> (r: Option<String>)
    ensures
        crate::types::text_of(r) == first_rar(order::views(names@)),
{
    let ghost all = order::views(names@);
    let mut i: usize = 0;
    assert(all.skip(0) == all);
    while i < names.len()
        invariant
            i <= names.len(),
            all == order::views(names@),
            first_rar(all) == first_rar(all.skip(i as int)),
        decreases names.len() - i,
    {
        assert(all.skip(i as int)[0] == names@[i as int]@);
        if does_have_extension(&names[i], "rar") {
            return Some(names[i].clone());
        }
        assert(all.skip(i as int).skip(1) == all.skip(i + 1));
        i += 1;
    }
    None
}

/// The archives to unpack among the file names of a directory, in dictionary order: RAR and
/// 7z files and the first parts of split archives. Of the RAR files only the first with that
/// extension is, if there is one, since the others are its volumes.
pub fn find_archives(names: &Vec<String>) -> (r: Vec<String>)
    ensures
        order::views(r@) == archives_in(order::views(names@)),
{
    let ghost all = order::views(names@);
    let ghost wanted = |n: Seq<char>| is_archive(text::lowered(n));
    let mut found: Vec<String> = Vec::new();
    proof {
        reveal(Seq::filter);
        assert(all.take(0) == Seq::<Seq<char>>::empty());
        assert(order::views(found@) =~= all.take(0).filter(wanted));
    }
    for i in 0..names.len()
        invariant
            all == order::views(names@),
            wanted == (|n: Seq<char>| is_archive(text::lowered(n))),
            order::views(found@) == all.take(i as int).filter(wanted),
    {
        proof {
            assert(all[i as int] == names@[i as int]@);
            assert(all.take(i + 1) == all.take(i as int).push(all[i as int]));
            order::filter_of_push(all.take(i as int), all[i as int], wanted);
        }
        if is_low_archive(&to_lowercase(&names[i])) {
            let ghost had = order::views(found@);
            found.push(names[i].clone());
            assert(order::views(found@) =~= had.push(all[i as int]));
        }
    }
    assert(all.take(all.len() as int) == all);
    sort(&mut found, &ByName);
    assert(order::rule::<String, ByName>(ByName) =~= unpack::by_name());
    let ghost sorted = order::views(found@);
    let main = find_first_rar(&found);
    let ghost keep = |n: Seq<char>| is_kept(first_rar(sorted), n);
    let mut r: Vec<String> = Vec::new();
    proof {
        reveal(Seq::filter);
        assert(sorted.take(0) == Seq::<Seq<char>>::empty());
        assert(order::views(r@) =~= sorted.take(0).filter(keep));
    }
    for i in 0..found.len()
        invariant
            sorted == order::views(found@),
            crate::types::text_of(main) == first_rar(sorted),
            keep == (|n: Seq<char>| is_kept(first_rar(sorted), n)),
            order::views(r@) == sorted.take(i as int).filter(keep),
    {
        proof {
            assert(sorted[i as int] == found@[i as int]@);
            assert(sorted.take(i + 1) == sorted.take(i as int).push(sorted[i as int]));
            order::filter_of_push(sorted.take(i as int), sorted[i as int], keep);
        }
        let kept = match &main {
            Some(m) => same_text(m, &found[i]) || !ends_with(
                &chars_of(&to_lowercase(&found[i])),
                ".rar",
            ),
            None => true,
        };
        if kept {
            let ghost had = order::views(r@);
            r.push(found[i].clone());
            assert(order::views(r@) =~= had.push(sorted[i as int]));
        }
    }
    assert(sorted.take(sorted.len() as int) == sorted);
    r
}

/// What to do with an entry of the directory that is cleared out.
#[derive(Debug, Clone, Copy, PartialEq, Eq, Structural)]
pub enum MoveAction {
    /// Leave it.
    Leave,
    /// Move what is in it instead.
    Descend,
    /// Move it.
    Move,
}

/// What to do with an entry, given its name, its name in lower case, whether it is a
/// directory, and whether it is the directory that files are moved to.
pub open spec fn move_action(
    name: Seq<char>,
    low: Seq<char>,
    is_dir: bool,
    is_target: bool,
) -> MoveAction {
    if is_dir && (is_target || text::extension(name) == Some("parts"@)) {
        MoveAction::Leave
    } else if is_dir && name == "unpacked"@ {
        MoveAction::Descend
    } else if is_packed(low) {
        MoveAction::Leave
    } else {
        MoveAction::Move
    }
}

/// What to do with an entry.
pub fn decide_move_of(name: &str, low: &str, is_dir: bool, is_target: bool) -> (r: MoveAction)
    ensures
        r == move_action(name@, low@, is_dir, is_target),
{
    if is_dir {
        let is_parts = match extension_of(name) {
            Some(e) => same_text(&e, "parts"),
            None => false,
        };
        if is_target || is_parts {
            return MoveAction::Leave;
        }
        if same_text(name, "unpacked") {
            return MoveAction::Descend;
        }
    }
    if is_low_packed(low) {
        MoveAction::Leave
    } else {
        MoveAction::Move
    }
}

/// What to do with an entry.
pub fn decide_move(name: &str, is_dir: bool, is_target: bool) -> (r: MoveAction)
    ensures
        r == move_action(name@, text::lowered(name@), is_dir, is_target),
{
    decide_move_of(name, &to_lowercase(name), is_dir, is_target)
}

/// What to do with an entry of the directory that is cleaned up.
#[derive(Debug, Clone, Copy, PartialEq, Eq, Structural)]
pub enum CleanAction {
    /// Leave it.
    Keep,
    /// Remove the directory with what is in it.
    RemoveDir,
    /// Remove the file.
    RemoveFile,
}

/// What to do with an entry, given its name in lower case and whether it is a directory:
/// parts, archives and files to check with go.
pub open spec fn clean_action(low: Seq<char>, is_dir: bool) -> CleanAction {
    if is_dir && text::has_suffix(low, ".parts"@) {
        CleanAction::RemoveDir
    } else if is_packed(low) {
        CleanAction::RemoveFile
    } else {
        CleanAction::Keep
    }
}

/// What to do with an entry.
pub fn decide_cleanup_of(low: &str, is_dir: bool) -> (r: CleanAction)
    ensures
        r == clean_action(low@, is_dir),
{
    let cs = chars_of(low);
    if is_dir && ends_with(&cs, ".parts") {
        CleanAction::RemoveDir
    } else if is_low_packed(low) {
        CleanAction::RemoveFile
    } else {
        CleanAction::Keep
    }
}

/// What to do with an entry.
pub fn decide_cleanup(name: &str, is_dir: bool) -> (r: CleanAction)
    ensures
        r == clean_action(text::lowered(name@), is_dir),
{
    decide_cleanup_of(&to_lowercase(name), is_dir)
}

/// What is moved to its final place is never removed: cleaning up touches only what moving
/// leaves behind.
pub proof fn cleanup_spares_moved_files(name: Seq<char>, low: Seq<char>, is_target: bool)
    requires
        move_action(name, low, false, is_target) == MoveAction::Move,
    ensures
        clean_action(low, false) == CleanAction::Keep,
{
}

/// What is to be done next for a download.
#[derive(Debug)]
pub enum Action {
    /// Check the files.
    Verify,
    /// List the files of the download.
    List,
    /// Unpack an archive into the directory for unpacked files.
    Unpack(String),
    /// Move the files to their place: the unpacked ones, or else those of the download.
    Move { unpacked: bool },
    /// Remove archives and parts.
    Cleanup,
    /// Nothing more.
    Finish,
}

/// What a [`Action`] says.
pub enum ActionView {
    Verify,
    List,
    Unpack(Seq<char>),
    Move { unpacked: bool },
    Cleanup,
    Finish,
}

impl View for Action {
    type V = ActionView;

    open spec fn view(&self) -> ActionView {
        match self {
            Action::Verify => ActionView::Verify,
            Action::List => ActionView::List,
            Action::Unpack(name) => ActionView::Unpack(name@),
            Action::Move { unpacked } => ActionView::Move { unpacked: *unpacked },
            Action::Cleanup => ActionView::Cleanup,
            Action::Finish => ActionView::Finish,
        }
    }
}

/// What came of the last thing that was to be done.
#[derive(Debug)]
pub enum Done {
    Verified(VerifyReport),
    /// The names of the files of the download.
    Listed(Vec<String>),
    Unpacked(Result<UnpackReport, UnpackError>),
    Moved,
    Cleaned,
}

/// The way of a download from the check to its final place.
#[derive(Debug)]
pub struct Pipeline {
    cleanup_archives: bool,
    action: Action,
    verify: Option<VerifyReport>,
    archives: Vec<String>,
    /// How many of the archives have been unpacked.
    unpacked: usize,
    tally: UnpackTally,
}

/// What a [`Pipeline`] holds.
#[verifier::ext_equal]
pub struct PipelineView {
    pub cleanup_archives: bool,
    pub action: ActionView,
    pub verify: Option<VerifyReport>,
    pub archives: Seq<Seq<char>>,
    pub unpacked: nat,
    pub tally: TallyView,
}

impl View for Pipeline {
    type V = PipelineView;

    closed spec fn view(&self) -> PipelineView {
        PipelineView {
            cleanup_archives: self.cleanup_archives,
            action: self.action@,
            verify: self.verify,
            archives: text::strings(self.archives@),
            unpacked: self.unpacked as nat,
            tally: self.tally@,
        }
    }
}

impl TallyView {
    /// The tally once one more archive was tried.
    pub open spec fn noted(self, outcome: Result<UnpackReport, UnpackError>) -> TallyView {
        match outcome {
            Ok(v) => TallyView { last: Some(v@), ..self },
            Err(e) => if e is Unsupported {
                self
            } else {
                TallyView { errors: self.errors.push(e@.words()), ..self }
            },
        }
    }
}

impl PipelineView {
    /// The start of the way: the check comes first, where there is something to check with.
    pub open spec fn start(cleanup_archives: bool, skip_verify: bool, par2_files: nat) -> PipelineView {
        PipelineView {
            cleanup_archives,
            action: if !skip_verify && par2_files > 0 {
                ActionView::Verify
            } else {
                ActionView::List
            },
            verify: None,
            archives: Seq::empty(),
            unpacked: 0,
            tally: TallyView { last: None, errors: Seq::empty() },
        }
    }

    /// What is done with the archives that are left: the next is unpacked; after the last the
    /// files are moved, unless an archive failed.
    pub open spec fn after_archives(self) -> ActionView {
        if self.unpacked < self.archives.len() {
            ActionView::Unpack(self.archives[self.unpacked as int])
        } else if self.tally.errors.len() > 0 {
            ActionView::Finish
        } else {
            ActionView::Move { unpacked: self.archives.len() > 0 }
        }
    }

    /// The way after something was done. What was not to be done changes nothing.
    pub open spec fn after(self, done: Done) -> PipelineView {
        match (self.action, done) {
            (ActionView::Verify, Done::Verified(v)) => PipelineView {
                verify: Some(v),
                action: if found_damage(Some(v)) {
                    ActionView::Finish
                } else {
                    ActionView::List
                },
                ..self
            },
            (ActionView::List, Done::Listed(names)) => {
                let listed = PipelineView {
                    archives: archives_in(order::views(names@)),
                    unpacked: 0,
                    ..self
                };
                PipelineView { action: listed.after_archives(), ..listed }
            },
            (ActionView::Unpack(_), Done::Unpacked(outcome)) => {
                let tried = PipelineView {
                    tally: self.tally.noted(outcome),
                    unpacked: self.unpacked + 1,
                    ..self
                };
                PipelineView { action: tried.after_archives(), ..tried }
            },
            (ActionView::Move { .. }, Done::Moved) => PipelineView {
                action: if self.cleanup_archives && self.archives.len() > 0 {
                    ActionView::Cleanup
                } else {
                    ActionView::Finish
                },
                ..self
            },
            (ActionView::Cleanup, Done::Cleaned) => PipelineView { action: ActionView::Finish, ..self },
            _ => self,
        }
    }

    /// What holds at every point of the way: a check that found damage ends it, files are
    /// moved only when all archives were tried and none failed, and cleaning up follows that.
    pub open spec fn is_valid(self) -> bool {
        &&& self.unpacked <= self.archives.len()
        &&& found_damage(self.verify) ==> self.action == ActionView::Finish && self.unpacked == 0
        &&& self.action == ActionView::Verify || self.action == ActionView::List ==> self.archives.len()
            == 0 && self.tally.errors.len() == 0
        &&& self.action is Unpack ==> self.unpacked < self.archives.len() && self.action
            == ActionView::Unpack(self.archives[self.unpacked as int])
        &&& self.action is Move || self.action == ActionView::Cleanup ==> self.unpacked
            == self.archives.len() && self.tally.errors.len() == 0
        &&& self.action == ActionView::Move { unpacked: true } ==> self.archives.len() > 0
        &&& self.action == ActionView::Move { unpacked: false } ==> self.archives.len() == 0
        &&& self.action == ActionView::Cleanup ==> self.cleanup_archives && self.archives.len() > 0
    }

    /// What the report says.
    pub open spec fn report(self, download_dir: Seq<char>, final_dir: Seq<char>) -> ReportView {
        let status = status_of(self.verify, self.archives.len(), self.tally);
        ReportView {
            verify: self.verify,
            unpack: if goes_on(status) {
                self.tally.last
            } else {
                None
            },
            status,
            final_dir: if goes_on(status) {
                final_dir
            } else {
                download_dir
            },
        }
    }
}

/// Every step keeps what holds of the way.
pub proof fn steps_stay_valid(p: PipelineView, done: Done)
    requires
        p.is_valid(),
    ensures
        p.after(done).is_valid(),
{
}

/// Where the check found damage nothing more is done: nothing is unpacked, moved or removed,
/// and the report leaves the files where they are.
pub proof fn damage_ends_the_way(p: PipelineView, done: Done, v: VerifyReport)
    requires
        p.is_valid(),
        p.action == ActionView::Verify,
        v.damaged > 0 || v.missing > 0,
    ensures
        p.after(Done::Verified(v)).action == ActionView::Finish,
        p.after(Done::Verified(v)).after(done) == p.after(Done::Verified(v)),
        forall|from: Seq<char>, to: Seq<char>|
            (#[trigger] p.after(Done::Verified(v)).report(from, to)).final_dir == from,
{
}

/// Archives are removed only after their files were moved, and only if that is wanted.
pub proof fn cleanup_comes_last(p: PipelineView, done: Done)
    requires
        p.is_valid(),
        p.action != ActionView::Cleanup,
        p.after(done).action == ActionView::Cleanup,
    ensures
        p.action is Move,
        done is Moved,
        p.cleanup_archives,
        p.tally.errors.len() == 0,
{
}

impl Pipeline {
    /// The start of the way of a download with this many files to check it with.
    pub fn new(config: &PostProcessConfig, par2_files: usize) -> (r: Self)
        ensures
            r@ == PipelineView::start(config.cleanup_archives, config.skip_verify, par2_files as nat),
            r@.is_valid(),
    {
        let action = if wants_verify(config.skip_verify, par2_files) {
            Action::Verify
        } else {
            Action::List
        };
        let r = Pipeline {
            cleanup_archives: config.cleanup_archives,
            action,
            verify: None,
            archives: Vec::new(),
            unpacked: 0,
            tally: UnpackTally::new(),
        };
        assert(r@ =~= PipelineView::start(
            config.cleanup_archives,
            config.skip_verify,
            par2_files as nat,
        ));
        r
    }

    /// What is to be done next.
    pub fn action(&self) -> (r: &Action)
        ensures
            r@ == self@.action,
    {
        &self.action
    }

    fn after_archives(&self) -> (r: Action)
        ensures
            r@ == self@.after_archives(),
    {
        if self.unpacked < self.archives.len() {
            Action::Unpack(self.archives[self.unpacked].clone())
        } else if self.tally.has_failed() {
            Action::Finish
        } else {
            Action::Move { unpacked: self.archives.len() > 0 }
        }
    }

    /// Takes up what came of the last thing that was to be done.
    pub fn advance(&mut self, done: Done)
        requires
            old(self)@.is_valid(),
        ensures
            final(self)@ == old(self)@.after(done),
            final(self)@.is_valid(),
    {
        let ghost before = self@;
        let ghost event = done;
        proof {
            steps_stay_valid(before, event);
        }
        match (&self.action, done) {
            (Action::Verify, Done::Verified(v)) => {
                self.verify = Some(v);
                self.action = if is_damaged(&self.verify) {
                    Action::Finish
                } else {
                    Action::List
                };
            },
            (Action::List, Done::Listed(names)) => {
                self.archives = find_archives(&names);
                self.unpacked = 0;
                self.action = self.after_archives();
            },
            (Action::Unpack(_), Done::Unpacked(outcome)) => {
                assert(self.unpacked < self.archives.len());
                self.tally.note(outcome);
                self.unpacked = self.unpacked + 1;
                self.action = self.after_archives();
            },
            (Action::Move { .. }, Done::Moved) => {
                self.action = if wants_cleanup(self.cleanup_archives, self.archives.len()) {
                    Action::Cleanup
                } else {
                    Action::Finish
                };
            },
            (Action::Cleanup, Done::Cleaned) => {
                self.action = Action::Finish;
            },
            _ => {},
        }
        assert(self@ =~= before.after(event));
    }

    /// What was done. The files of a download that is damaged or could not be unpacked are
    /// still in `download_dir`, all others in `final_dir`.
    pub fn into_report(self, download_dir: &str, final_dir: &str) -> (r: PostProcessReport)
        ensures
            r@ == self@.report(download_dir@, final_dir@),
    {
        let status = conclude(&self.verify, self.archives.len(), &self.tally);
        let verify = self.verify;
        if does_go_on(&status) {
            PostProcessReport {
                verify,
                unpack: self.tally.into_last(),
                status,
                final_dir: final_dir.to_owned(),
            }
        } else {
            PostProcessReport { verify, unpack: None, status, final_dir: download_dir.to_owned() }
        }
    }
}

/// A name is that of a part of a split archive exactly if it ends in `.7z.` and three digits; the
/// first part has the number one.
pub proof fn split_parts_end_in_numbers(h: Seq<char>, a: char, b: char, c: char, low: Seq<char>)
    ensures
        is_split_part(h + ".7z."@ + seq![a, b, c]) <==> ('0' as u32 <= a as u32 <= '9' as u32
            && '0' as u32 <= b as u32 <= '9' as u32 && '0' as u32 <= c as u32 <= '9' as u32),
        is_split_part(low) ==> exists|g: Seq<char>, d: Seq<char>|
            low == #[trigger] (g + ".7z."@ + d) && d.len() == 3,
        is_first_part(h + ".7z.001"@),
        is_first_part(low) ==> is_split_part(low),
{
    reveal_strlit(".7z.");
    reveal_strlit(".7z.001");
    let d = seq![a, b, c];
    let s = h + ".7z."@ + d;
    let n = s.len() as int;
    assert(s.subrange(n - 7, n - 3) =~= ".7z."@);
    assert(s.skip(n - 3) =~= d);
    assert(d[0] == a && d[1] == b && d[2] == c);
    text::affixes_are_pieces(h, ".7z.001"@, h);
    if is_split_part(low) {
        let m = low.len() as int;
        let g = low.take(m - 7);
        assert(low =~= g + low.subrange(m - 7, m - 3) + low.skip(m - 3));
    }
    if is_first_part(low) {
        text::affixes_are_pieces(low, ".7z.001"@, h);
        let m = low.len() as int;
        let t = low.subrange(m - 7, m);
        assert(t == ".7z.001"@);
        assert forall|i: int| 0 <= i < 7 implies low[m - 7 + i] == ".7z.001"@[i] by {
            assert(t[i] == low[m - 7 + i]);
        }
        assert(low.subrange(m - 7, m - 3) =~= ".7z."@);
        assert(low.skip(m - 3)[0] == '0' && low.skip(m - 3)[1] == '0' && low.skip(m - 3)[2]
            == '1');
    }
}

/// An entry, file or directory, is moved unless it is the directory that files are moved to, a
/// directory of parts, the directory of unpacked files, or named like an archive, a part of one or
/// a file to check with. What the directory of unpacked files holds is moved in its place.
pub proof fn everything_else_is_moved(
    name: Seq<char>,
    low: Seq<char>,
    is_dir: bool,
    is_target: bool,
)
    ensures
        move_action(name, low, is_dir, is_target) == MoveAction::Move <==> {
            &&& !(is_dir && is_target)
            &&& !(is_dir && text::extension(name) == Some("parts"@))
            &&& !(is_dir && name == "unpacked"@)
            &&& !text::has_suffix(low, ".rar"@)
            &&& !text::has_suffix(low, ".7z"@)
            &&& !is_split_part(low)
            &&& !text::has_suffix(low, ".par2"@)
        },
        move_action(name, low, is_dir, is_target) == MoveAction::Descend <==> is_dir && !is_target
            && text::extension(name) != Some("parts"@) && name == "unpacked"@,
{
}

/// A directory is moved like a file of the same name, unless it is one of those that have a use of
/// their own.
pub proof fn directories_are_moved_like_files(name: Seq<char>, low: Seq<char>)
    requires
        text::extension(name) != Some("parts"@),
        name != "unpacked"@,
    ensures
        move_action(name, low, true, false) == move_action(name, low, false, false),
{
}

/// Cleaning up removes directories of parts, archives, parts of archives and files to check with,
/// and nothing else.
pub proof fn only_packed_entries_are_removed(low: Seq<char>, is_dir: bool)
    ensures
        clean_action(low, is_dir) == CleanAction::RemoveDir <==> is_dir && text::has_suffix(
            low,
            ".parts"@,
        ),
        clean_action(low, is_dir) == CleanAction::RemoveFile <==> !(is_dir && text::has_suffix(
            low,
            ".parts"@,
        )) && (text::has_suffix(low, ".rar"@) || text::has_suffix(low, ".7z"@) || is_split_part(low)
            || text::has_suffix(low, ".par2"@)),
{
}

/// A name has an extension if that stands behind its last dot, in whatever case.
pub proof fn extensions_stand_behind_dots(head: Seq<char>, e: Seq<char>, ext: Seq<char>)
    requires
        head.len() > 0,
        !e.contains('.'),
        e.len() > 0,
    ensures
        has_extension(head + seq!['.'] + e, ext) <==> text::same_but_case(e, ext),
        !has_extension(e, ext),
{
    let name = head + seq!['.'] + e;
    assert(name != seq!['.', '.']) by {
        assert(name.last() == e.last());
        assert(e[e.len() - 1] != '.');
        if name == seq!['.', '.'] {
            assert(seq!['.', '.'].last() == '.');
        }
    }
    text::extension_follows_last_dot(head, e);
}

proof fn lemma_first_rar(names: Seq<Seq<char>>) -> (i: int)
    ensures
        first_rar(names) is Some ==> 0 <= i < names.len() && first_rar(names) == Some(names[i])
            && has_extension(names[i], "rar"@) && forall|j: int|
            0 <= j < i ==> !has_extension(#[trigger] names[j], "rar"@),
        first_rar(names) is None ==> forall|j: int|
            0 <= j < names.len() ==> !has_extension(#[trigger] names[j], "rar"@),
    decreases names.len(),
{
    if names.len() == 0 || has_extension(names[0], "rar"@) {
        0
    } else {
        let t = names.skip(1);
        let i = lemma_first_rar(t);
        assert forall|j: int|
            0 <= j < names.len() && (first_rar(names) is None || j < i + 1) implies !has_extension(
            #[trigger] names[j],
            "rar"@,
        ) by {
            if j > 0 {
                assert(names[j] == t[j - 1]);
            }
        }
        i + 1
    }
}

/// Whether a name is that of an archive to unpack, put in terms of how it ends.
pub proof fn archives_end_in_their_kinds(low: Seq<char>)
    ensures
        is_archive(low) <==> {
            &&& !text::has_suffix(low, ".par2"@)
            &&& text::has_suffix(low, ".7z.001"@) || (!is_split_part(low) && (text::has_suffix(
                low,
                ".rar"@,
            ) || text::has_suffix(low, ".7z"@)))
        },
{
}

/// What is unpacked comes from the files of the directory, and is an archive. Every archive is
/// unpacked that is no RAR file.
pub proof fn archives_are_unpacked(names: Seq<Seq<char>>, n: Seq<char>)
    ensures
        archives_in(names).contains(n) ==> names.contains(n) && is_archive(text::lowered(n)),
        names.contains(n) && is_archive(text::lowered(n)) && !text::has_suffix(
            text::lowered(n),
            ".rar"@,
        ) ==> archives_in(names).contains(n),
        (forall|m: Seq<char>|
            #![trigger names.contains(m)]
            names.contains(m) && is_archive(text::lowered(m)) ==> !has_extension(m, "rar"@))
            && names.contains(n) && is_archive(text::lowered(n)) ==> archives_in(names).contains(n),
{
    let wanted = |m: Seq<char>| is_archive(text::lowered(m));
    let found = names.filter(wanted);
    let s = order::sorted(found, unpack::by_name());
    lemma_filtered(names, wanted, n);
    order::sorting_keeps_members(found, unpack::by_name());
    let keep = |m: Seq<char>| is_kept(first_rar(s), m);
    lemma_filtered(s, keep, n);
    assert(archives_in(names) == s.filter(keep));
    let i = lemma_first_rar(s);
    if first_rar(s) is Some {
        assert(s.contains(s[i]));
        lemma_filtered(names, wanted, s[i]);
        assert(names.contains(s[i]));
    }
}

proof fn lemma_filtered(s: Seq<Seq<char>>, keep: spec_fn(Seq<char>) -> bool, n: Seq<char>)
    ensures
        s.filter(keep).contains(n) <==> s.contains(n) && keep(n),
{
    if s.filter(keep).contains(n) {
        s.lemma_filter_contains_rev(keep, n);
    }
    if s.contains(n) && keep(n) {
        let k = choose|k: int| 0 <= k < s.len() && s[k] == n;
        s.lemma_filter_contains(keep, k);
    }
}

/// Of the RAR files of a directory exactly one is unpacked, and it is the first of them in
/// dictionary order: the others are its volumes.
pub proof fn first_rar_is_unpacked(names: Seq<Seq<char>>, n: Seq<char>, m: Seq<char>)
    requires
        names.contains(m),
        is_archive(text::lowered(m)),
        has_extension(m, "rar"@),
    ensures
        exists|k: Seq<char>| #[trigger]
            archives_in(names).contains(k) && has_extension(k, "rar"@),
        archives_in(names).contains(n) && has_extension(n, "rar"@) && text::has_suffix(
            text::lowered(n),
            ".rar"@,
        ) ==> !text::text_before(m, n),
{
    let wanted = |x: Seq<char>| is_archive(text::lowered(x));
    let found = names.filter(wanted);
    let s = order::sorted(found, unpack::by_name());
    lemma_filtered(names, wanted, m);
    order::sorting_keeps_members(found, unpack::by_name());
    assert(s.contains(m));
    let i = lemma_first_rar(s);
    let a = choose|a: int| 0 <= a < s.len() && s[a] == m;
    assert(first_rar(s) is Some);
    let keep = |x: Seq<char>| is_kept(first_rar(s), x);
    assert(s.contains(s[i]));
    lemma_filtered(s, keep, s[i]);
    lemma_filtered(s, keep, n);
    assert(archives_in(names) == s.filter(keep));
    assert(archives_in(names).contains(s[i]));
    unpack::names_rank();
    order::sorting_puts_in_order(found, unpack::by_name());
    if i < a {
        assert(!unpack::by_name()(s[a], s[i]));
    } else {
        text::text_before_is_total(m, m, m);
    }
}

/// Archives are unpacked in dictionary order.
pub proof fn archives_come_in_order(names: Seq<Seq<char>>, i: int, j: int)
    requires
        0 <= i < j < archives_in(names).len(),
    ensures
        !text::text_before(archives_in(names)[j], archives_in(names)[i]),
{
    let found = names.filter(|x: Seq<char>| is_archive(text::lowered(x)));
    let s = order::sorted(found, unpack::by_name());
    let keep = |x: Seq<char>| is_kept(first_rar(s), x);
    unpack::names_rank();
    order::sorting_puts_in_order(found, unpack::by_name());
    let p = order::filter_positions(s, keep);
    assert(archives_in(names) == s.filter(keep));
    assert(p[i] < p[j]);
    assert(!unpack::by_name()(s[p[j]], s[p[i]]));
}

/// How it ends: damage that the check found comes first, then archives that could not be unpacked;
/// else the files are complete if they were checked, and if not it counts whether there was an
/// archive.
pub proof fn ends_tell_what_happened(verify: Option<VerifyReport>, archives: nat, tally: TallyView)
    ensures
        ({
            let r = status_of(verify, archives, tally);
            let damage = verify is Some && (verify->0.damaged > 0 || verify->0.missing > 0);
            let failed = tally.errors.len() > 0;
            &&& r is Damaged <==> damage
            &&& damage ==> r == (StatusView::Damaged {
                healthy: verify->0.healthy,
                damaged: verify->0.damaged,
                missing: verify->0.missing,
            })
            &&& r is UnpackFailed <==> !damage && failed
            &&& r is Complete <==> !damage && !failed && verify is Some
            &&& r is NoArchives <==> !damage && !failed && verify is None && archives == 0
            &&& r is UnpackedWithoutVerify <==> !damage && !failed && verify is None && archives
                > 0
            &&& goes_on(r) <==> !damage && !failed
        }),
{
}

/// An archive that was unpacked is the one that is reported; one that could not be adds its error
/// to those before it, unless its kind is not supported.
pub proof fn archives_are_tallied(
    t: TallyView,
    v: UnpackReport,
    e: UnpackError,
)
    ensures
        t.noted(Ok(v)).last == Some(v@),
        t.noted(Ok(v)).errors == t.errors,
        e is Unsupported ==> t.noted(Err(e)) == t,
        !(e is Unsupported) ==> t.noted(Err(e)).errors == t.errors.push(e@.words()) && t.noted(
            Err(e),
        ).last == t.last,
{
}

/// The way of a download: it is checked first if there is something to check it with and that is
/// wanted, and then its files are listed. Every archive is unpacked in turn. When all were, the
/// unpacked files are moved, or those of the download where there was no archive; a failed archive
/// ends the way before that. Archives are removed last, if that is wanted and there are any.
pub proof fn downloads_go_their_way(
    p: PipelineView,
    v: VerifyReport,
    names: Vec<String>,
    outcome: Result<UnpackReport, UnpackError>,
    cleanup: bool,
    skip: bool,
    files: nat,
)
    ensures
        PipelineView::start(cleanup, skip, files).action == if !skip && files > 0 {
            ActionView::Verify
        } else {
            ActionView::List
        },
        PipelineView::start(cleanup, skip, files).cleanup_archives == cleanup,
        p.action is Verify && v.damaged == 0 && v.missing == 0 ==> p.after(
            Done::Verified(v),
        ).action is List && p.after(Done::Verified(v)).verify == Some(v),
        p.action is List && p.tally.errors.len() == 0 ==> {
            let r = p.after(Done::Listed(names));
            let a = archives_in(order::views(names@));
            &&& r.archives == a
            &&& r.unpacked == 0
            &&& a.len() > 0 ==> r.action == ActionView::Unpack(a[0])
            &&& a.len() == 0 ==> r.action == (ActionView::Move { unpacked: false })
        },
        p.action is Unpack && p.unpacked + 1 < p.archives.len() ==> p.after(
            Done::Unpacked(outcome),
        ).action == ActionView::Unpack(p.archives[p.unpacked + 1int]),
        p.action is Unpack && p.unpacked + 1 == p.archives.len() ==> p.after(
            Done::Unpacked(outcome),
        ).action == if p.tally.errors.len() > 0 || (outcome is Err && !(outcome->Err_0
            is Unsupported)) {
            ActionView::Finish
        } else {
            ActionView::Move { unpacked: true }
        },
        p.action is Move ==> p.after(Done::Moved).action == if p.cleanup_archives
            && p.archives.len() > 0 {
            ActionView::Cleanup
        } else {
            ActionView::Finish
        },
        p.action is Cleanup ==> p.after(Done::Cleaned).action is Finish,
        p.action is Finish ==> p.after(Done::Moved) == p,
{
}

/// The report tells what was found and done, and where the files are: in their final place if they
/// were moved, and else where they were downloaded.
pub proof fn reports_tell_where_files_are(p: PipelineView, from: Seq<char>, to: Seq<char>)
    ensures
        ({
            let r = p.report(from, to);
            let fine = !(p.verify is Some && (p.verify->0.damaged > 0 || p.verify->0.missing > 0))
                && p.tally.errors.len() == 0;
            &&& r.verify == p.verify
            &&& r.status == status_of(p.verify, p.archives.len(), p.tally)
            &&& fine ==> r.final_dir == to && r.unpack == p.tally.last
            &&& !fine ==> r.final_dir == from && r.unpack is None
        }),
{
}

} // verus!
