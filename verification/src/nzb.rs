//! The contents of an NZB file: which articles make up which files.
use vstd::prelude::*;

verus! {

/// One article of a file.
#[derive(Debug)]
pub struct NzbSegment {
    /// Position within the file, from 1.
    pub number: u32,
    pub message_id: String,
    /// Size of the encoded article.
    pub bytes: u64,
    /// Whether the NZB file itself has no article for this position.
    pub missing: bool,
}

/// One file of a release.
#[derive(Debug)]
pub struct NzbFile {
    /// The name in the subject.
    pub filename: String,
    pub subject: String,
    pub poster: String,
    /// Unix time of the post.
    pub date: u64,
    pub segment_count: u32,
    pub segments: Vec<NzbSegment>,
}

/// A release.
#[derive(Debug)]
pub struct Nzb {
    pub title: Option<String>,
    /// Passwords of the archives in the release.
    pub passwords: Vec<String>,
    pub files: Vec<NzbFile>,
}

/// The sum of the segment counts of a list of files.
pub open spec fn segments_of(files: Seq<NzbFile>) -> int
    decreases files.len(),
{
    if files.len() == 0 {
        0
    } else {
        segments_of(files.drop_last()) + files.last().segment_count
    }
}

/// The sum of the sizes of a list of articles.
pub open spec fn bytes_of_segments(segments: Seq<NzbSegment>) -> int
    decreases segments.len(),
{
    if segments.len() == 0 {
        0
    } else {
        bytes_of_segments(segments.drop_last()) + segments.last().bytes
    }
}

/// The sum of the sizes of the articles of a list of files.
pub open spec fn bytes_of(files: Seq<NzbFile>) -> int
    decreases files.len(),
{
    if files.len() == 0 {
        0
    } else {
        bytes_of(files.drop_last()) + bytes_of_segments(files.last().segments@)
    }
}

proof fn lemma_segment_bytes(segments: Seq<NzbSegment>)
    ensures
        bytes_of_segments(segments) >= 0,
    decreases segments.len(),
{
    if segments.len() > 0 {
        lemma_segment_bytes(segments.drop_last());
    }
}

/// The totals of a release are not negative.
pub proof fn totals_are_not_negative(files: Seq<NzbFile>)
    ensures
        segments_of(files) >= 0,
        bytes_of(files) >= 0,
    decreases files.len(),
{
    if files.len() > 0 {
        totals_are_not_negative(files.drop_last());
        lemma_segment_bytes(files.last().segments@);
    }
}

/// The number of articles of a list of files.
pub open spec fn articles_of(files: Seq<NzbFile>) -> nat
    decreases files.len(),
{
    if files.len() == 0 {
        0
    } else {
        articles_of(files.drop_last()) + files.last().segments@.len()
    }
}

/// The sums never fall as files are added.
pub proof fn sums_grow(files: Seq<NzbFile>, i: int)
    requires
        0 <= i <= files.len(),
    ensures
        0 <= segments_of(files.take(i)) <= segments_of(files),
        0 <= bytes_of(files.take(i)) <= bytes_of(files),
        articles_of(files.take(i)) <= articles_of(files),
    decreases files.len(),
{
    if i < files.len() {
        sums_grow(files.drop_last(), i);
        assert(files.drop_last().take(i) == files.take(i));
        article_sizes_grow(files.last().segments@, 0);
    } else {
        assert(files.take(i) == files);
        if files.len() > 0 {
            sums_grow(files.drop_last(), i - 1);
            assert(files.drop_last().take(i - 1) == files.drop_last());
            article_sizes_grow(files.last().segments@, 0);
        }
    }
}

/// The sum of the sizes never falls as articles are added.
pub proof fn article_sizes_grow(segments: Seq<NzbSegment>, i: int)
    requires
        0 <= i <= segments.len(),
    ensures
        0 <= bytes_of_segments(segments.take(i)) <= bytes_of_segments(segments),
    decreases segments.len(),
{
    if i < segments.len() {
        article_sizes_grow(segments.drop_last(), i);
        assert(segments.drop_last().take(i) == segments.take(i));
    } else {
        assert(segments.take(i) == segments);
        if segments.len() > 0 {
            article_sizes_grow(segments.drop_last(), i - 1);
            assert(segments.drop_last().take(i - 1) == segments.drop_last());
        }
    }
}

impl Nzb {
    /// What a job for this release is called: the display name, or else the title, the name
    /// of the first file, or a fixed name.
    pub open spec fn job_name(self, display_name: Option<Seq<char>>) -> Seq<char> {
        match display_name {
            Some(n) => n,
            None => match self.title {
                Some(t) => t@,
                None => if self.files@.len() > 0 {
                    self.files@[0].filename@
                } else {
                    "nobz-download"@
                },
            },
        }
    }

    /// What a job for this release is called.
    pub fn name_of_job(&self, display_name: Option<&str>) -> (r: String)
        ensures
            r@ == self.job_name(
                match display_name {
                    Some(n) => Some(n@),
                    None => None,
                },
            ),
    {
        match display_name {
            Some(n) => n.to_owned(),
            None => match &self.title {
                Some(t) => t.clone(),
                None => if self.files.len() > 0 {
                    self.files[0].filename.clone()
                } else {
                    "nobz-download".to_owned()
                },
            },
        }
    }

    /// The password to unpack the release with: `given`, or else the first that the NZB file
    /// names.
    pub fn password(&self, given: Option<String>) -> (r: Option<String>)
        ensures
            crate::types::text_of(r) == match given {
                Some(p) => Some(p@),
                None => if self.passwords@.len() > 0 {
                    Some(self.passwords@[0]@)
                } else {
                    None
                },
            },
    {
        match given {
            Some(p) => Some(p),
            None => if self.passwords.len() > 0 {
                Some(self.passwords[0].clone())
            } else {
                None
            },
        }
    }

    /// Whether the number of segments and the size of the release can be counted.
    pub fn is_countable(&self) -> (r: bool)
        ensures
            r == (segments_of(self.files@) <= u32::MAX && bytes_of(self.files@) <= u64::MAX),
    {
        let mut count: u32 = 0;
        let mut size: u64 = 0;
        assert(self.files@.take(0) == Seq::<NzbFile>::empty());
        for i in 0..self.files.len()
            invariant
                count == segments_of(self.files@.take(i as int)),
                size == bytes_of(self.files@.take(i as int)),
        {
            let segments = &self.files[i].segments;
            let ghost before = size;
            proof {
                sums_grow(self.files@, i + 1);
                assert(self.files@.take(i + 1).drop_last() == self.files@.take(i as int));
                assert(segments@.take(0) == Seq::<NzbSegment>::empty());
            }
            match count.checked_add(self.files[i].segment_count) {
                Some(n) => {
                    count = n;
                },
                None => {
                    return false;
                },
            }
            for k in 0..segments.len()
                invariant
                    i < self.files.len(),
                    segments == &self.files@[i as int].segments,
                    before == bytes_of(self.files@.take(i as int)),
                    before + bytes_of_segments(segments@) == bytes_of(self.files@.take(i + 1)),
                    bytes_of(self.files@.take(i + 1)) <= bytes_of(self.files@),
                    size == before + bytes_of_segments(segments@.take(k as int)),
            {
                proof {
                    article_sizes_grow(segments@, k + 1);
                    assert(segments@.take(k + 1).drop_last() == segments@.take(k as int));
                }
                match size.checked_add(segments[k].bytes) {
                    Some(n) => {
                        size = n;
                    },
                    None => {
                        return false;
                    },
                }
            }
            assert(segments@.take(segments@.len() as int) == segments@);
        }
        assert(self.files@.take(self.files@.len() as int) == self.files@);
        true
    }

    /// The number of segments that the files announce.
    pub fn total_segments(&self) -> (r: u32)
        requires
            segments_of(self.files@) <= u32::MAX,
        ensures
            r == segments_of(self.files@),
    {
        let mut sum: u32 = 0;
        assert(self.files@.take(0) == Seq::<NzbFile>::empty());
        for i in 0..self.files.len()
            invariant
                segments_of(self.files@) <= u32::MAX,
                sum == segments_of(self.files@.take(i as int)),
        {
            proof {
                sums_grow(self.files@, i + 1);
                assert(self.files@.take(i + 1).drop_last() == self.files@.take(i as int));
            }
            sum += self.files[i].segment_count;
        }
        assert(self.files@.take(self.files@.len() as int) == self.files@);
        sum
    }

    /// The size of all articles.
    pub fn total_bytes(&self) -> (r: u64)
        requires
            bytes_of(self.files@) <= u64::MAX,
        ensures
            r == bytes_of(self.files@),
    {
        let mut sum: u64 = 0;
        assert(self.files@.take(0) == Seq::<NzbFile>::empty());
        for i in 0..self.files.len()
            invariant
                bytes_of(self.files@) <= u64::MAX,
                sum == bytes_of(self.files@.take(i as int)),
        {
            let segments = &self.files[i].segments;
            let ghost before = sum;
            proof {
                sums_grow(self.files@, i + 1);
                assert(self.files@.take(i + 1).drop_last() == self.files@.take(i as int));
                assert(segments@.take(0) == Seq::<NzbSegment>::empty());
            }
            for k in 0..segments.len()
                invariant
                    before + bytes_of_segments(segments@) <= u64::MAX,
                    sum == before + bytes_of_segments(segments@.take(k as int)),
            {
                proof {
                    article_sizes_grow(segments@, k + 1);
                    assert(segments@.take(k + 1).drop_last() == segments@.take(k as int));
                }
                sum += segments[k].bytes;
            }
            assert(segments@.take(segments@.len() as int) == segments@);
        }
        assert(self.files@.take(self.files@.len() as int) == self.files@);
        sum
    }
}

/// Each file adds its segments and its size to a release, and each article its size to a file.
pub proof fn totals_add_up(
    files: Seq<NzbFile>,
    f: NzbFile,
    segments: Seq<NzbSegment>,
    s: NzbSegment,
)
    ensures
        segments_of(Seq::empty()) == 0,
        segments_of(files.push(f)) == segments_of(files) + f.segment_count,
        bytes_of_segments(Seq::empty()) == 0,
        bytes_of_segments(segments.push(s)) == bytes_of_segments(segments) + s.bytes,
        bytes_of(Seq::empty()) == 0,
        bytes_of(files.push(f)) == bytes_of(files) + bytes_of_segments(f.segments@),
        articles_of(Seq::empty()) == 0,
        articles_of(files.push(f)) == articles_of(files) + f.segments@.len(),
{
    assert(files.push(f).drop_last() =~= files);
    assert(segments.push(s).drop_last() =~= segments);
}

/// A job has the name that it is given; without one, the title of its release; without a title,
/// the name of its first file.
pub proof fn jobs_are_named(nzb: Nzb, name: Seq<char>)
    ensures
        nzb.job_name(Some(name)) == name,
        nzb.title is Some ==> nzb.job_name(None) == nzb.title->0@,
        nzb.title is None && nzb.files@.len() > 0 ==> nzb.job_name(None) == nzb.files@[0].filename@,
        nzb.title is None && nzb.files@.len() == 0 ==> nzb.job_name(None) == "nobz-download"@,
{
}

} // verus!
