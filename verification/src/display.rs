//! What the windows show, as text and counts.
use vstd::prelude::*;

use crate::error::concat;
use crate::postprocess::VerifyReport;
use crate::queue::{JobState, JobView, QueueJob};
use crate::text;
use crate::text::to_decimal;
use crate::types::{CapsView, IndexerCaps};

verus! {

/// The unit that a size is shown in.
#[derive(Debug, Clone, Copy, PartialEq, Eq, Structural)]
pub enum SizeUnit {
    /// Nothing is known of the size.
    Unknown,
    Bytes,
    Kilobytes,
    Megabytes,
    Gigabytes,
}

/// The unit that a size is shown in: the largest that fits into it.
pub fn size_unit(bytes: u64) -> (r: SizeUnit)
    ensures
        r == if bytes == 0 {
            SizeUnit::Unknown
        } else if bytes >= 1024 * 1024 * 1024 {
            SizeUnit::Gigabytes
        } else if bytes >= 1024 * 1024 {
            SizeUnit::Megabytes
        } else if bytes >= 1024 {
            SizeUnit::Kilobytes
        } else {
            SizeUnit::Bytes
        },
{
    if bytes == 0 {
        SizeUnit::Unknown
    } else if bytes >= 1024 * 1024 * 1024 {
        SizeUnit::Gigabytes
    } else if bytes >= 1024 * 1024 {
        SizeUnit::Megabytes
    } else if bytes >= 1024 {
        SizeUnit::Kilobytes
    } else {
        SizeUnit::Bytes
    }
}

/// The age of a post, in the largest unit that fits into it: hours, days, weeks, months of
/// thirty days or years of 365 days.
pub open spec fn age(post_date: nat, now: nat) -> Seq<char> {
    if post_date == 0 || post_date > now {
        "?"@
    } else {
        let delta = (now - post_date) as nat;
        let days = delta / 86400;
        if days == 0 {
            text::decimal(delta / 3600) + "h"@
        } else if days < 7 {
            text::decimal(days) + "d"@
        } else if days < 30 {
            text::decimal(days / 7) + "w"@
        } else if days < 365 {
            text::decimal(days / 30) + "mo"@
        } else {
            text::decimal(days / 365) + "y"@
        }
    }
}

/// The age of a post, given the present time.
pub fn format_age(post_date: u64, now: u64) -> (r: String)
    ensures
        r@ == age(post_date as nat, now as nat),
{
    if post_date == 0 || post_date > now {
        return "?".to_owned();
    }
    let delta: u64 = now - post_date;
    let days: u64 = delta / 86400;
    if days == 0 {
        concat(&to_decimal(delta / 3600), "h")
    } else if days < 7 {
        concat(&to_decimal(days), "d")
    } else if days < 30 {
        concat(&to_decimal(days / 7), "w")
    } else if days < 365 {
        concat(&to_decimal(days / 30), "mo")
    } else {
        concat(&to_decimal(days / 365), "y")
    }
}

/// The word that a job state is shown as.
pub fn state_label(state: JobState) -> (r: &'static str)
    ensures
        r@ == match state {
            JobState::Fetching => "Fetching..."@,
            JobState::Queued => "Queued"@,
            JobState::Downloading => "Downloading"@,
            JobState::Complete => "Complete"@,
            JobState::Failed => "Failed"@,
        },
{
    match state {
        JobState::Fetching => "Fetching...",
        JobState::Queued => "Queued",
        JobState::Downloading => "Downloading",
        JobState::Complete => "Complete",
        JobState::Failed => "Failed",
    }
}

/// What the progress bar of a job shows.
#[derive(Debug)]
pub enum JobProgress {
    /// How many of the bytes are there.
    Bytes { downloaded: u64, total: u64 },
    /// How many of the segments are there.
    Segments { done: u32, total: u32, text: String },
    /// Nothing is known of the job.
    Nothing,
}

/// How many bytes of a job are there: those of the running download count as they come in.
pub open spec fn shown_bytes(job: JobView, current: Option<i64>, live: u64) -> u64 {
    if current is Some && current->0 == job.id {
        live
    } else {
        job.downloaded_bytes
    }
}

/// The number of segments and files of a job that are there, in words.
pub open spec fn segments_text(job: JobView) -> Seq<char> {
    text::decimal(job.segments_done as nat) + " / "@ + text::decimal(job.total_segments as nat)
        + " seg  ("@ + text::decimal(job.files_done as nat) + " / "@ + text::decimal(
        job.file_count as nat,
    ) + " files)"@
}

/// How many bytes of a job are there.
pub fn bytes_shown(job: &QueueJob, current: Option<i64>, live: u64) -> (r: u64)
    ensures
        r == shown_bytes(job@, current, live),
{
    match current {
        Some(id) => if id == job.id {
            live
        } else {
            job.downloaded_bytes
        },
        None => job.downloaded_bytes,
    }
}

/// What the progress bar of a job shows.
pub fn job_progress(job: &QueueJob, current: Option<i64>, live: u64) -> (r: JobProgress)
    ensures
        match r {
            JobProgress::Bytes { downloaded, total } => job.total_bytes > 0 && shown_bytes(
                job@,
                current,
                live,
            ) > 0 && downloaded == shown_bytes(job@, current, live) && total == job.total_bytes,
            JobProgress::Segments { done, total, text } => !(job.total_bytes > 0 && shown_bytes(
                job@,
                current,
                live,
            ) > 0) && job.total_segments > 0 && done == job.segments_done && total
                == job.total_segments && text@ == segments_text(job@),
            JobProgress::Nothing => !(job.total_bytes > 0 && shown_bytes(job@, current, live) > 0)
                && job.total_segments == 0,
        },
{
    let downloaded: u64 = bytes_shown(job, current, live);
    if job.total_bytes > 0 && downloaded > 0 {
        JobProgress::Bytes { downloaded, total: job.total_bytes }
    } else if job.total_segments > 0 {
        let mut t = concat(&to_decimal(job.segments_done as u64), " / ");
        t.append(&to_decimal(job.total_segments as u64));
        t.append(" seg  (");
        t.append(&to_decimal(job.files_done as u64));
        t.append(" / ");
        t.append(&to_decimal(job.file_count as u64));
        t.append(" files)");
        JobProgress::Segments { done: job.segments_done, total: job.total_segments, text: t }
    } else {
        JobProgress::Nothing
    }
}

/// How the segments of a file are shown: at most 200 dots, of which the first stand for
/// segments that are done, and the next for missing ones.
#[derive(Debug, Clone, Copy, PartialEq, Eq, Structural)]
pub struct DotGrid {
    pub total: u64,
    pub done: u64,
    pub missing: u64,
}

/// What a dot stands for.
#[derive(Debug, Clone, Copy, PartialEq, Eq, Structural)]
pub enum Dot {
    Done,
    Missing,
    Pending,
}

/// The number of dots of a file with `count` segments.
pub open spec fn dot_total(count: nat) -> nat {
    if count < 200 {
        count
    } else {
        200
    }
}

/// The number of dots that stand for `n` of `count` segments, rounded down.
pub open spec fn dots_for(n: nat, count: nat) -> nat {
    (n * dot_total(count)) / count
}

/// How the segments of a file are shown; `None` where there is none.
pub fn segment_dots(count: u32, done: u32, missing: u32) -> (r: Option<DotGrid>)
    ensures
        match r {
            Some(g) => {
                &&& count > 0
                &&& g.total == dot_total(count as nat)
                &&& g.done == dots_for(done as nat, count as nat)
                &&& g.missing == dots_for(missing as nat, count as nat)
            },
            None => count == 0,
        },
{
    if count == 0 {
        return None;
    }
    let total: u64 = if count < 200 {
        count as u64
    } else {
        200
    };
    assert(done * total <= 0xffff_ffff * 200 && missing * total <= 0xffff_ffff * 200)
        by (nonlinear_arith)
        requires
            total <= 200,
            done <= 0xffff_ffff,
            missing <= 0xffff_ffff,
    ;
    Some(
        DotGrid {
            total,
            done: (done as u64 * total) / count as u64,
            missing: (missing as u64 * total) / count as u64,
        },
    )
}

/// What the dot `i` stands for, if `done` dots stand for segments that are done and the next
/// `missing` for missing ones.
pub open spec fn dot_at(done: nat, missing: nat, i: nat) -> Dot {
    if i < done {
        Dot::Done
    } else if i < done + missing {
        Dot::Missing
    } else {
        Dot::Pending
    }
}

impl DotGrid {
    /// What the dot `i` stands for.
    pub fn dot(&self, i: u64) -> (r: Dot)
        ensures
            r == dot_at(self.done as nat, self.missing as nat, i as nat),
    {
        if i < self.done {
            Dot::Done
        } else if i - self.done < self.missing {
            Dot::Missing
        } else {
            Dot::Pending
        }
    }
}

/// A file whose segments are all done shows only dots that say so, and one of which nothing
/// is done or missing none that says so.
pub proof fn dots_tell_the_ends(count: nat, missing: nat, i: nat)
    requires
        count > 0,
        i < dot_total(count),
    ensures
        dot_at(dots_for(count, count), missing, i) == Dot::Done,
        dot_at(dots_for(0, count), dots_for(0, count), i) == Dot::Pending,
{
    let total = dot_total(count);
    vstd::arithmetic::div_mod::lemma_div_multiples_vanish(total as int, count as int);
    assert(count * total == total * count) by (nonlinear_arith);
    assert(0 * total == 0) by (nonlinear_arith);
}

/// A summary of what happened to a download, with the status as it is shown.
pub open spec fn summary(
    verify: Option<VerifyReport>,
    unpacked: Option<nat>,
    status: Seq<char>,
) -> Seq<char> {
    (match verify {
        Some(v) => "PAR2: "@ + text::decimal(v.healthy as nat) + "ok/"@ + text::decimal(
            v.damaged as nat,
        ) + "damaged/"@ + text::decimal(v.missing as nat) + "missing"@,
        None => "PAR2: skipped"@,
    }) + " | "@ + (match unpacked {
        Some(n) => "Unpacked: "@ + text::decimal(n) + " files"@,
        None => "Unpacked: —"@,
    }) + " | "@ + status
}

/// A summary of what happened to a download.
pub fn pp_summary(verify: &Option<VerifyReport>, unpacked: Option<usize>, status: &str) -> (r:
    String)
    ensures
        r@ == summary(
            *verify,
            match unpacked {
                Some(n) => Some(n as nat),
                None => None,
            },
            status@,
        ),
{
    let mut r = match verify {
        Some(v) => {
            let mut t = concat("PAR2: ", &to_decimal(v.healthy as u64));
            t.append("ok/");
            t.append(&to_decimal(v.damaged as u64));
            t.append("damaged/");
            t.append(&to_decimal(v.missing as u64));
            t.append("missing");
            t
        },
        None => "PAR2: skipped".to_owned(),
    };
    r.append(" | ");
    let u = match unpacked {
        Some(n) => {
            let mut t = concat("Unpacked: ", &to_decimal(n as u64));
            t.append(" files");
            t
        },
        None => "Unpacked: —".to_owned(),
    };
    r.append(&u);
    r.append(" | ");
    r.append(status);
    r
}

/// What a test of an indexer shows: its title, version, number of categories and retention.
pub open spec fn caps_summary(c: CapsView) -> Seq<char> {
    c.title + " — v"@ + c.server_version + ", "@ + text::decimal(c.categories.len())
        + " categories, retention "@ + (match c.retention_days {
        Some(d) => text::decimal(d as nat),
        None => "?"@,
    }) + "d"@
}

/// What a test of an indexer shows.
pub fn describe_caps(caps: &IndexerCaps) -> (r: String)
    ensures
        r@ == caps_summary(caps@),
{
    let mut r = concat(&caps.title, " — v");
    r.append(&caps.server_version);
    r.append(", ");
    r.append(&to_decimal(caps.categories.len() as u64));
    r.append(" categories, retention ");
    let days = match caps.retention_days {
        Some(d) => to_decimal(d as u64),
        None => "?".to_owned(),
    };
    r.append(&days);
    r.append("d");
    r
}

/// An age is told in full hours up to a day, in full days up to a week, in weeks up to thirty days,
/// in months of thirty days up to a year, and in years of 365 days from then on. A post without a
/// date, or one from the future, has none.
pub proof fn ages_are_told_in_full_units(post: nat, n: nat, rest: nat, now: nat)
    ensures
        post == 0 || post > now ==> age(post, now) == "?"@,
        post > 0 && n < 24 && rest < 3600 ==> age(post, post + 3600 * n + rest) == text::decimal(n)
            + "h"@,
        post > 0 && 1 <= n < 7 && rest < 86400 ==> age(post, post + 86400 * n + rest)
            == text::decimal(n) + "d"@,
        post > 0 && 1 <= n && rest < 7 * 86400 && 7 * 86400 * n + rest < 30 * 86400 ==> age(
            post,
            post + 7 * 86400 * n + rest,
        ) == text::decimal(n) + "w"@,
        post > 0 && 1 <= n && rest < 30 * 86400 && 30 * 86400 * n + rest < 365 * 86400 ==> age(
            post,
            post + 30 * 86400 * n + rest,
        ) == text::decimal(n) + "mo"@,
        post > 0 && 1 <= n && rest < 365 * 86400 ==> age(post, post + 365 * 86400 * n + rest)
            == text::decimal(n) + "y"@,
{
    if rest < 7 * 86400 {
        lemma_full_units(7, n, rest);
    }
    if rest < 30 * 86400 {
        lemma_full_units(30, n, rest);
    }
    if rest < 365 * 86400 {
        lemma_full_units(365, n, rest);
    }
}

/// The full units of `unit` days in a time of `n` of them and less than one more.
proof fn lemma_full_units(unit: nat, n: nat, rest: nat)
    requires
        0 < unit,
        rest < unit * 86400,
    ensures
        (unit * 86400 * n + rest) / 86400 / unit == n,
        (unit * 86400 * n + rest) / 86400 >= unit * n,
{
    let whole = (unit * 86400) as int;
    let x = unit * 86400 * n + rest;
    vstd::arithmetic::div_mod::lemma_div_denominator(x as int, 86400, unit as int);
    vstd::arithmetic::mul::lemma_mul_is_commutative(whole, n as int);
    vstd::arithmetic::div_mod::lemma_fundamental_div_mod_converse(
        x as int,
        whole,
        n as int,
        rest as int,
    );
    vstd::arithmetic::div_mod::lemma_div_is_ordered((unit * 86400 * n) as int, x as int, 86400);
    assert(unit * 86400 * n == (unit * n) * 86400) by (nonlinear_arith);
}

/// The bytes of the job that downloads are those counted now; of any other, those that were noted.
pub proof fn running_job_shows_live_bytes(job: JobView, id: i64, live: u64)
    ensures
        shown_bytes(job, None, live) == job.downloaded_bytes,
        id == job.id ==> shown_bytes(job, Some(id), live) == live,
        id != job.id ==> shown_bytes(job, Some(id), live) == job.downloaded_bytes,
{
}

/// There is a dot for each segment, but never more than two hundred; with a dot for each, exactly
/// as many are lit as segments are counted, and with fewer dots their share is rounded down. More
/// segments never light fewer dots.
pub proof fn dots_show_shares(count: nat, n: nat, more: nat)
    requires
        0 < count,
        n <= more <= count,
    ensures
        dot_total(count) <= 200,
        count <= 200 ==> dot_total(count) == count && dots_for(n, count) == n,
        count > 200 ==> dot_total(count) == 200,
        dots_for(n, count) * count <= n * dot_total(count) < (dots_for(n, count) + 1) * count,
        dots_for(n, count) <= dots_for(more, count) <= dot_total(count),
{
    let t = dot_total(count);
    assert(n * t <= more * t <= count * t) by (nonlinear_arith)
        requires
            n <= more <= count,
    ;
    vstd::arithmetic::div_mod::lemma_fundamental_div_mod((n * t) as int, count as int);
    vstd::arithmetic::div_mod::lemma_div_is_ordered(
        (n * t) as int,
        (more * t) as int,
        count as int,
    );
    vstd::arithmetic::div_mod::lemma_div_is_ordered(
        (more * t) as int,
        (count * t) as int,
        count as int,
    );
    vstd::arithmetic::div_mod::lemma_div_multiples_vanish(t as int, count as int);
    vstd::arithmetic::mul::lemma_mul_is_commutative(t as int, count as int);
    vstd::arithmetic::mul::lemma_mul_is_commutative(count as int, (n * t) as int / count as int);
    if count <= 200 {
        vstd::arithmetic::div_mod::lemma_div_multiples_vanish(n as int, count as int);
        vstd::arithmetic::mul::lemma_mul_is_commutative(n as int, count as int);
    }
    let q = (n * t) as int / count as int;
    assert((q + 1) * count == q * count + count) by (nonlinear_arith);
}

/// The dots of what is done come first, then those of what is missing, then the rest.
pub proof fn dots_stand_in_order(done: nat, missing: nat, i: nat, k: nat)
    requires
        i < done,
        k < missing,
    ensures
        dot_at(done, missing, i) == Dot::Done,
        dot_at(done, missing, done + k) == Dot::Missing,
        dot_at(done, missing, done + missing + k) == Dot::Pending,
{
}

/// The progress of a job tells its segments, done and in all, and then its files.
pub proof fn progress_tells_segments_and_files(job: JobView)
    ensures
        ({
            let t = segments_text(job);
            let done = text::decimal(job.segments_done as nat);
            let all = text::decimal(job.total_segments as nat);
            let files = text::decimal(job.files_done as nat);
            let count = text::decimal(job.file_count as nat);
            t == done + (" / "@ + (all + (" seg  ("@ + (files + (" / "@ + (count + " files)"@))))))
        }),
{
    let t = segments_text(job);
    let done = text::decimal(job.segments_done as nat);
    let all = text::decimal(job.total_segments as nat);
    let files = text::decimal(job.files_done as nat);
    let count = text::decimal(job.file_count as nat);
    let end = files + (" / "@ + (count + " files)"@));
    assert(t =~= done + (" / "@ + (all + (" seg  ("@ + end))));
}

/// What post-processing did is told in three parts: the check, the number of unpacked files and
/// how it ended. What was skipped is said to be.
pub proof fn summaries_have_three_parts(v: VerifyReport, n: nat, status: Seq<char>)
    ensures
        summary(None, None, status) == "PAR2: skipped | Unpacked: — | "@ + status,
        summary(None, Some(n), status) == "PAR2: skipped | Unpacked: "@ + (text::decimal(n)
            + (" files | "@ + status)),
        summary(Some(v), None, status) == "PAR2: "@ + (text::decimal(v.healthy as nat) + ("ok/"@ + (
        text::decimal(v.damaged as nat) + ("damaged/"@ + (text::decimal(v.missing as nat) + (
        "missing | Unpacked: — | "@ + status)))))),
{
    reveal_strlit("PAR2: skipped");
    reveal_strlit(" | ");
    reveal_strlit("Unpacked: —");
    reveal_strlit("Unpacked: ");
    reveal_strlit(" files");
    reveal_strlit("missing");
    reveal_strlit("PAR2: skipped | Unpacked: — | ");
    reveal_strlit("PAR2: skipped | Unpacked: ");
    reveal_strlit(" files | ");
    reveal_strlit("missing | Unpacked: — | ");
    assert(summary(None, None, status) =~= "PAR2: skipped | Unpacked: — | "@ + status);
    assert(summary(None, Some(n), status) =~= "PAR2: skipped | Unpacked: "@ + (text::decimal(n) + (
    " files | "@ + status)));
    assert(summary(Some(v), None, status) =~= "PAR2: "@ + (text::decimal(v.healthy as nat) + (
    "ok/"@ + (text::decimal(v.damaged as nat) + ("damaged/"@ + (text::decimal(v.missing as nat) + (
    "missing | Unpacked: — | "@ + status)))))));
}

/// An indexer is described by its title, its version, the number of its categories and for how
/// many days it keeps posts, where it tells.
pub proof fn indexers_are_described(c: CapsView)
    ensures
        ({
            let head = c.title + (" — v"@ + (c.server_version + (", "@ + (text::decimal(
                c.categories.len(),
            ) + " categories, retention "@))));
            &&& c.retention_days is None ==> caps_summary(c) == head + "?d"@
            &&& c.retention_days is Some ==> caps_summary(c) == head + (text::decimal(
                c.retention_days->0 as nat,
            ) + "d"@)
        }),
{
    reveal_strlit("?");
    reveal_strlit("d");
    reveal_strlit("?d");
    let head = c.title + (" — v"@ + (c.server_version + (", "@ + (text::decimal(c.categories.len())
        + " categories, retention "@))));
    if c.retention_days is None {
        assert(caps_summary(c) =~= head + "?d"@);
    } else {
        assert(caps_summary(c) =~= head + (text::decimal(c.retention_days->0 as nat) + "d"@));
    }
}

} // verus!
