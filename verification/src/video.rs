//! Planning the download of one large file in byte ranges.

use vstd::prelude::*;
use crate::decimal::{decimal_digits, parse_u64, parse_u64_spec, push_decimal};
use crate::error::JobError;
use crate::text::{chars_of, join, string_of};

verus! {

/// A file to fetch in byte ranges.
#[derive(Debug, Clone, PartialEq, Eq)]
pub struct Video {
    /// The absolute address of the file.
    pub url: String,
    /// The path of the output file.
    pub title: String,
    /// The length of the file in bytes.
    pub size: u64,
}

impl Video {
    /// Describes a file of `size` bytes at `url` that is to be stored as `title`.
    pub fn new(url: String, title: String, size: u64) -> (v: Video)
        ensures
            v.url == url,
            v.title == title,
            v.size == size,
    {
        Video { url, title, size }
    }
}

/// Reads the value of a `Content-Length` header: an unsigned decimal
/// number that fits 64 bits.
pub fn content_length(value: &str) -> (r: Option<u64>)
    ensures
        r == parse_u64_spec(value@),
{
    parse_u64(&chars_of(value))
}

/// One byte range of a file: the bytes from `start` to `end`, both included.
#[derive(Debug, Clone, Copy, PartialEq, Eq)]
pub struct VideoSegment {
    pub id: u64,
    pub start: u64,
    pub end: u64,
}

impl VideoSegment {
    /// The range with the given number and bounds.
    pub fn new(id: u64, start: u64, end: u64) -> (s: VideoSegment)
        ensures
            s.id == id,
            s.start == start,
            s.end == end,
    {
        VideoSegment { id, start, end }
    }

    /// The number of bytes in the range.
    pub fn size(&self) -> (n: u64)
        requires
            self.start <= self.end,
            self.end - self.start < u64::MAX,
        ensures
            n == self.end - self.start + 1,
    {
        self.end - self.start + 1
    }

    /// The value of the HTTP `Range` header that asks for this range.
    pub open spec fn range_header_spec(&self) -> Seq<char> {
        "bytes="@ + decimal_digits(self.start as nat) + "-"@ + decimal_digits(self.end as nat)
    }

    /// The value of the HTTP `Range` header that asks for this range.
    pub fn range_header(&self) -> (h: String)
        ensures
            h@ == self.range_header_spec(),
    {
        let mut out = chars_of("bytes=");
        push_decimal(self.start as u128, &mut out);
        let dash = chars_of("-");
        let mut out = join(&out, &dash);
        push_decimal(self.end as u128, &mut out);
        string_of(&out)
    }
}

/// The number of ranges of `chunk` bytes that cover `length` bytes.
pub open spec fn chunk_count(length: nat, chunk: nat) -> nat {
    ((length + chunk - 1) / chunk as int) as nat
}

/// Range number `i` of a file of `length` bytes cut into ranges of `chunk` bytes.
pub open spec fn chunk_at(i: int, length: nat, chunk: nat) -> VideoSegment {
    VideoSegment {
        id: i as u64,
        start: (i * chunk) as u64,
        end: (if (i + 1) * chunk < length {
            (i + 1) * chunk - 1
        } else {
            length - 1
        }) as u64,
    }
}

/// The ranges of a file of `length` bytes cut into ranges of `chunk` bytes.
pub open spec fn range_plan(length: nat, chunk: nat) -> Seq<VideoSegment> {
    Seq::new(chunk_count(length, chunk), |i: int| chunk_at(i, length, chunk))
}

/// The number of ranges is the one `k` with `(k - 1) * chunk < length <= k * chunk`.
pub proof fn lemma_chunk_count(length: nat, chunk: nat, k: nat)
    requires
        chunk > 0,
        k >= 1,
        (k - 1) * chunk < length,
        length <= k * chunk,
    ensures
        chunk_count(length, chunk) == k,
{
    let total = (length + chunk - 1) as int;
    let c = chunk as int;
    assert(k * c <= total < (k + 1) * c) by (nonlinear_arith)
        requires
            c > 0,
            k >= 1,
            (k - 1) * c < length,
            length <= k * c,
            total == length + c - 1,
    ;
    assert(total / c == k) by (nonlinear_arith)
        requires
            c > 0,
            k * c <= total < (k + 1) * c,
    ;
}

/// The ranges of a plan are disjoint and contiguous and cover the file
/// exactly: the first starts at byte 0, each later one starts right after
/// the one before it ends, and the last ends at the last byte. Every range
/// but the last holds `chunk` bytes; the last holds at least one and at
/// most `chunk`.
pub proof fn lemma_plan_partitions(length: nat, chunk: nat)
    requires
        0 < length <= u64::MAX,
        0 < chunk,
    ensures
        ({
            let plan = range_plan(length, chunk);
            &&& plan.len() == chunk_count(length, chunk)
            &&& plan.len() >= 1
            &&& plan[0].start == 0
            &&& plan.last().end == length - 1
            &&& forall|i: int| 0 <= i < plan.len() ==> (#[trigger] plan[i]).id == i
            &&& forall|i: int| 0 <= i < plan.len() ==> (#[trigger] plan[i]).start <= plan[i].end
            &&& forall|i: int|
                0 <= i < plan.len() - 1 ==> (#[trigger] plan[i]).end + 1 == plan[i + 1].start
            &&& forall|i: int|
                0 <= i < plan.len() - 1 ==> (#[trigger] plan[i]).end - plan[i].start + 1 == chunk
            &&& plan.last().end - plan.last().start + 1 <= chunk
        }),
{
    let plan = range_plan(length, chunk);
    let n = chunk_count(length, chunk) as int;
    let c = chunk as int;
    let len = length as int;
    assert((n - 1) * c < len && len <= n * c && n >= 1) by (nonlinear_arith)
        requires
            c > 0,
            len > 0,
            n == (len + c - 1) / c,
    ;
    assert(n * c == (n - 1) * c + c) by (nonlinear_arith);
    assert(0 * c == 0);
    assert forall|i: int| 0 <= i < plan.len() implies (#[trigger] plan[i]).id == i by {
        lemma_chunk_bounds(i, n, c, len);
    }
    assert forall|i: int| 0 <= i < plan.len() implies (#[trigger] plan[i]).start <= plan[i].end by {
        lemma_chunk_bounds(i, n, c, len);
    }
    assert forall|i: int| 0 <= i < plan.len() - 1 implies (#[trigger] plan[i]).end + 1 == plan[i
        + 1].start by {
        lemma_chunk_bounds(i, n, c, len);
        lemma_chunk_bounds(i + 1, n, c, len);
    }
    assert forall|i: int| 0 <= i < plan.len() - 1 implies (#[trigger] plan[i]).end - plan[i].start
        + 1 == chunk by {
        lemma_chunk_bounds(i, n, c, len);
        lemma_chunk_bounds(i + 1, n, c, len);
    }
    lemma_chunk_bounds(n - 1, n, c, len);
    lemma_chunk_bounds(0, n, c, len);
}

/// Where range `i` of `n` starts, and where the next one would.
pub proof fn lemma_chunk_bounds(i: int, n: int, c: int, len: int)
    requires
        0 <= i < n,
        c > 0,
        (n - 1) * c < len <= n * c,
    ensures
        i <= i * c < len,
        (i + 1) * c == i * c + c,
        i < n - 1 ==> (i + 1) * c < len,
        i == n - 1 ==> (i + 1) * c >= len,
{
    assert(i <= i * c && i * c <= (n - 1) * c && (i + 1) * c == i * c + c) by (nonlinear_arith)
        requires
            0 <= i <= n - 1,
            c > 0,
    ;
    if i < n - 1 {
        assert((i + 1) * c <= (n - 1) * c) by (nonlinear_arith)
            requires
                0 <= i + 1 <= n - 1,
                c > 0,
        ;
    }
}

/// A range that leaves more than `chunk` bytes after its start is a full
/// one, and it is not the last.
proof fn lemma_plan_step(length: nat, chunk: nat, i: int)
    requires
        0 < length <= u64::MAX,
        chunk > 0,
        0 <= i,
        i * chunk < length,
        length - i * chunk > chunk,
    ensures
        i + 1 < range_plan(length, chunk).len(),
        i <= u64::MAX,
        (i + 1) * chunk == i * chunk + chunk,
        range_plan(length, chunk)[i] == (VideoSegment {
            id: i as u64,
            start: (i * chunk) as u64,
            end: (i * chunk + chunk - 1) as u64,
        }),
{
    let n = chunk_count(length, chunk) as int;
    let c = chunk as int;
    let len = length as int;
    assert((n - 1) * c < len && len <= n * c && n >= 1) by (nonlinear_arith)
        requires
            c > 0,
            len > 0,
            n == (len + c - 1) / c,
    ;
    assert((i + 1) * c == i * c + c) by (nonlinear_arith);
    assert(i + 1 < n) by (nonlinear_arith)
        requires
            (i + 1) * c < len,
            len <= n * c,
            c > 0,
    ;
    lemma_chunk_bounds(i, n, c, len);
}

/// A range that leaves at most `chunk` bytes after its start is the last.
proof fn lemma_plan_last(length: nat, chunk: nat, i: int)
    requires
        0 < length <= u64::MAX,
        chunk > 0,
        0 <= i,
        i * chunk < length,
        length - i * chunk <= chunk,
    ensures
        i + 1 == range_plan(length, chunk).len(),
        i <= u64::MAX,
        range_plan(length, chunk)[i] == (VideoSegment {
            id: i as u64,
            start: (i * chunk) as u64,
            end: (length - 1) as u64,
        }),
{
    let c = chunk as int;
    assert((i + 1) * c == i * c + c) by (nonlinear_arith);
    lemma_chunk_count(length, chunk, (i + 1) as nat);
    lemma_chunk_bounds(i, i + 1, c, length as int);
}

/// A file together with the plan of its byte ranges and the directory
/// that takes the ranges' bytes until they are joined.
#[derive(Debug)]
pub struct SegmentedVideo {
    video: Video,
    block_size: u64,
    segments: Vec<VideoSegment>,
    total_segments: u64,
    folder: String,
}

impl SegmentedVideo {
    #[verifier::type_invariant]
    spec fn planned(self) -> bool {
        &&& self.video.size > 0
        &&& self.block_size > 0
        &&& self.segments@ == range_plan(self.video.size as nat, self.block_size as nat)
        &&& self.total_segments == self.segments@.len()
    }

    /// The length of the file in bytes.
    pub closed spec fn length(&self) -> nat {
        self.video.size as nat
    }

    /// The number of bytes in each range but the last.
    pub closed spec fn chunk(&self) -> nat {
        self.block_size as nat
    }

    /// The planned ranges, in order.
    pub closed spec fn plan(&self) -> Seq<VideoSegment> {
        self.segments@
    }

    /// The directory that takes the ranges' bytes.
    pub closed spec fn scratch(&self) -> Seq<char> {
        self.folder@
    }

    /// The address of the file.
    pub closed spec fn source(&self) -> Seq<char> {
        self.video.url@
    }

    /// The path of the output file.
    pub closed spec fn output(&self) -> Seq<char> {
        self.video.title@
    }

    /// Plans the download of `video` in ranges of `block_size` bytes, to be
    /// stored under `folder`.
    ///
    /// A file of length zero gives `EmptyPlan`, and a block size of zero
    /// gives `InvalidOptions`. Otherwise the plan holds the ranges of
    /// `range_plan`: as many as it takes to cover the file, numbered from
    /// zero, each of `block_size` bytes but for the last, which holds the
    /// remainder.
    pub fn new(video: Video, block_size: u64, folder: String) -> (r: Result<
        SegmentedVideo,
        JobError,
    >)
        ensures
            match r {
                Ok(sv) => {
                    &&& video.size > 0
                    &&& block_size > 0
                    &&& sv.length() == video.size
                    &&& sv.chunk() == block_size
                    &&& sv.scratch() == folder@
                    &&& sv.source() == video.url@
                    &&& sv.output() == video.title@
                    &&& sv.plan() == range_plan(video.size as nat, block_size as nat)
                },
                Err(e) => if video.size == 0 {
                    e == JobError::EmptyPlan
                } else {
                    e == JobError::InvalidOptions && block_size == 0
                },
            },
    {
        if video.size == 0 {
            return Err(JobError::EmptyPlan);
        }
        if block_size == 0 {
            return Err(JobError::InvalidOptions);
        }
        let size: u64 = video.size;
        let ghost plan = range_plan(size as nat, block_size as nat);
        let mut segments: Vec<VideoSegment> = Vec::new();
        let mut start: u64 = 0;
        proof {
            assert(0 * block_size == 0);
            lemma_plan_partitions(size as nat, block_size as nat);
        }
        while size - start > block_size
            invariant
                size > 0,
                block_size > 0,
                start < size,
                plan == range_plan(size as nat, block_size as nat),
                start == segments.len() * block_size,
                segments.len() < plan.len(),
                segments@ == plan.take(segments.len() as int),
            decreases size - start,
        {
            let ghost i = segments.len() as int;
            let id: u64 = segments.len() as u64;
            proof {
                lemma_plan_step(size as nat, block_size as nat, i);
            }
            segments.push(VideoSegment::new(id, start, start + block_size - 1));
            start = start + block_size;
            proof {
                assert(segments@ =~= plan.take(i + 1));
            }
        }
        let ghost i = segments.len() as int;
        let id: u64 = segments.len() as u64;
        proof {
            lemma_plan_last(size as nat, block_size as nat, i);
        }
        segments.push(VideoSegment::new(id, start, size - 1));
        proof {
            assert(segments@ =~= plan);
        }
        let total_segments: u64 = segments.len() as u64;
        Ok(SegmentedVideo { video, block_size, segments, total_segments, folder })
    }

    /// The planned ranges, in order.
    pub fn segments(&self) -> (s: &Vec<VideoSegment>)
        ensures
            s@ == self.plan(),
            s@ == range_plan(self.length(), self.chunk()),
            0 < self.length() <= u64::MAX,
            0 < self.chunk() <= u64::MAX,
    {
        proof {
            use_type_invariant(self);
        }
        &self.segments
    }

    /// The number of planned ranges.
    pub fn total_segments(&self) -> (n: u64)
        ensures
            n == self.plan().len(),
            n == chunk_count(self.length(), self.chunk()),
    {
        proof {
            use_type_invariant(self);
        }
        self.total_segments
    }

    /// The file that the plan is for.
    pub fn video(&self) -> (v: &Video)
        ensures
            v.url@ == self.source(),
            v.title@ == self.output(),
            v.size == self.length(),
    {
        &self.video
    }

    /// The directory that takes the ranges' bytes.
    pub fn folder(&self) -> (f: &String)
        ensures
            f@ == self.scratch(),
    {
        &self.folder
    }
}

} // verus!
