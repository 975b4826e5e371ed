//! Reading playlist manifests: media manifests, which list segments, and
//! master manifests, which list variant streams.
//!
//! A manifest is read line by line. A line that begins with a marker
//! describes an entry, and the line after it holds the entry's address.
//! Reading stops at the first entry that cannot be read.

use vstd::prelude::*;
use crate::decimal::{parse_micros, parse_micros_spec, parse_u64, parse_u64_spec};
use crate::error::ManifestError;
use crate::link::{resolve, resolve_spec, Link};
use crate::text::{
    after_last, chars_of, find, find_in, head_through, lines, occurs_at, slice_of, split_lines,
    starts_with, string_of, tail_after, through_last, views,
};

verus! {

/// One entry of a media manifest.
#[derive(Debug, Clone, PartialEq, Eq)]
pub struct Segment {
    /// The last component of the address's path.
    pub name: String,
    /// The absolute address of the segment.
    pub uri: String,
    /// The playing time in microseconds.
    pub duration: u64,
}

/// A segment as plain values.
pub struct SegmentView {
    pub name: Seq<char>,
    pub uri: Seq<char>,
    pub duration: u64,
}

impl View for Segment {
    type V = SegmentView;

    open spec fn view(&self) -> SegmentView {
        SegmentView { name: self.name@, uri: self.uri@, duration: self.duration }
    }
}

impl Segment {
    /// The segment at the address `link` that plays for `duration`
    /// microseconds. It is named by the last component of the address's path:
    /// what follows the path's last `/`, or the whole path where it has none.
    pub fn from_link(link: Link, duration: u64) -> (s: Segment)
        ensures
            s@ == (SegmentView { name: after_last(link.path@, '/'), uri: link.href@, duration }),
    {
        let name = string_of(&tail_after(&chars_of(link.path.as_str()), '/'));
        Segment { name, uri: link.href, duration }
    }
}

/// The views of a sequence of segments.
pub open spec fn segment_views(v: Seq<Segment>) -> Seq<SegmentView> {
    v.map_values(|s: Segment| s@)
}

/// The text that begins a segment line.
pub open spec fn segment_marker() -> Seq<char> {
    "#EXTINF"@
}

/// The colon as a one-character pattern.
pub open spec fn colon() -> Seq<char> {
    seq![':']
}

/// The comma as a one-character pattern.
pub open spec fn comma() -> Seq<char> {
    seq![',']
}

/// The duration field of a segment line: what stands between the line's
/// first colon and its first comma, where the colon comes first.
pub open spec fn duration_field(line: Seq<char>) -> Option<Seq<char>> {
    match (find(line, colon()), find(line, comma())) {
        (Some(c), Some(m)) => if c < m {
            Some(line.subrange(c + 1, m))
        } else {
            None
        },
        _ => None,
    }
}

/// The segment that the marker line `i` and the line after it describe.
pub open spec fn segment_at(lines: Seq<Seq<char>>, prefix: Seq<char>, i: int) -> Result<
    SegmentView,
    ManifestError,
> {
    match duration_field(lines[i]) {
        None => Err(ManifestError::MalformedDuration),
        Some(field) => match parse_micros_spec(field) {
            None => Err(ManifestError::MalformedDuration),
            Some(duration) => if i + 1 >= lines.len() {
                Err(ManifestError::MissingUri)
            } else {
                match resolve_spec(prefix, lines[i + 1]) {
                    None => Err(ManifestError::UnresolvedUri),
                    Some(parts) => Ok(
                        SegmentView { name: after_last(parts.1, '/'), uri: parts.0, duration },
                    ),
                }
            },
        },
    }
}

/// Whether a line describes a segment.
pub open spec fn is_segment_line(line: Seq<char>) -> bool {
    occurs_at(line, segment_marker(), 0)
}

/// The segments that the first `n` lines describe, in order, or the error
/// of the first segment line among them that cannot be read.
pub open spec fn segments_upto(lines: Seq<Seq<char>>, prefix: Seq<char>, n: int) -> Result<
    Seq<SegmentView>,
    ManifestError,
>
    decreases n,
{
    if n <= 0 {
        Ok(Seq::empty())
    } else {
        match segments_upto(lines, prefix, n - 1) {
            Err(e) => Err(e),
            Ok(segments) => if is_segment_line(lines[n - 1]) {
                match segment_at(lines, prefix, n - 1) {
                    Ok(segment) => Ok(segments.push(segment)),
                    Err(e) => Err(e),
                }
            } else {
                Ok(segments)
            },
        }
    }
}

/// What a media manifest means next to a base path.
pub open spec fn parse_segments_spec(text: Seq<char>, prefix: Seq<char>) -> Result<
    Seq<SegmentView>,
    ManifestError,
> {
    segments_upto(lines(text), prefix, lines(text).len() as int)
}

/// The number of segment lines in a manifest.
pub open spec fn segment_line_count(text: Seq<char>) -> nat {
    lines(text).filter(|l: Seq<char>| is_segment_line(l)).len()
}

/// An error among the first lines is the error of the whole manifest.
pub proof fn lemma_segments_error_stays(
    lines: Seq<Seq<char>>,
    prefix: Seq<char>,
    n: int,
    m: int,
)
    requires
        n <= m,
        segments_upto(lines, prefix, n) is Err,
    ensures
        segments_upto(lines, prefix, m) == segments_upto(lines, prefix, n),
    decreases m - n,
{
    if n < m {
        lemma_segments_error_stays(lines, prefix, n, m - 1);
    }
}

/// A manifest that can be read yields one segment for each segment line.
pub proof fn lemma_segment_count(lines: Seq<Seq<char>>, prefix: Seq<char>, n: int)
    requires
        0 <= n <= lines.len(),
        segments_upto(lines, prefix, n) is Ok,
    ensures
        segments_upto(lines, prefix, n)->Ok_0.len() == lines.take(n).filter(
            |l: Seq<char>| is_segment_line(l),
        ).len(),
    decreases n,
{
    let pred = |l: Seq<char>| is_segment_line(l);
    if n == 0 {
        assert(lines.take(0) =~= Seq::<Seq<char>>::empty());
        reveal(Seq::filter);
    } else {
        lemma_segment_count(lines, prefix, n - 1);
        assert(lines.take(n) =~= lines.take(n - 1).push(lines[n - 1]));
        lines.take(n - 1).lemma_filter_len_push(pred, lines[n - 1]);
    }
}

/// Reads the duration field of a segment line: the playing time in
/// microseconds, or `None` where the line has no readable duration.
pub fn read_duration(line: &Vec<char>) -> (r: Option<u64>)
    ensures
        r == match duration_field(line@) {
            None => None,
            Some(field) => parse_micros_spec(field),
        },
{
    let colon_pattern: Vec<char> = vec![':'];
    let comma_pattern: Vec<char> = vec![','];
    assert(colon_pattern@ =~= colon());
    assert(comma_pattern@ =~= comma());
    match (find_in(line, &colon_pattern), find_in(line, &comma_pattern)) {
        (Some(c), Some(m)) => {
            if c < m {
                assert(occurs_at(line@, comma(), m as int) && m < line.len());
                let field = slice_of(line, c + 1, m);
                parse_micros(&field)
            } else {
                None
            }
        },
        _ => None,
    }
}

/// Reads the segment that the marker line `i` and the line after it describe.
fn read_segment(lines: &Vec<Vec<char>>, prefix: &Vec<char>, i: usize) -> (r: Result<
    Segment,
    ManifestError,
>)
    requires
        i < lines.len(),
    ensures
        match r {
            Ok(segment) => segment_at(views(lines@), prefix@, i as int) == Ok::<
                SegmentView,
                ManifestError,
            >(segment@),
            Err(e) => segment_at(views(lines@), prefix@, i as int) == Err::<
                SegmentView,
                ManifestError,
            >(e),
        },
{
    let duration = match read_duration(&lines[i]) {
        Some(d) => d,
        None => {
            return Err(ManifestError::MalformedDuration);
        },
    };
    if i + 1 >= lines.len() {
        return Err(ManifestError::MissingUri);
    }
    match resolve(prefix, &lines[i + 1]) {
        None => Err(ManifestError::UnresolvedUri),
        Some(link) => Ok(Segment::from_link(link, duration)),
    }
}

/// Reads the segments of a media manifest. References that are not
/// absolute addresses are appended to `prefix`.
///
/// The result is the list of segments in manifest order, one for each line
/// that begins with the segment marker, or the error of the first such line
/// that cannot be read.
pub fn parse_segments(playlist: &str, prefix: &str) -> (r: Result<Vec<Segment>, ManifestError>)
    ensures
        match r {
            Ok(segments) => {
                &&& parse_segments_spec(playlist@, prefix@) == Ok::<
                    Seq<SegmentView>,
                    ManifestError,
                >(segment_views(segments@))
                &&& segments.len() == segment_line_count(playlist@)
            },
            Err(e) => parse_segments_spec(playlist@, prefix@) == Err::<
                Seq<SegmentView>,
                ManifestError,
            >(e),
        },
{
    let text = chars_of(playlist);
    let base = chars_of(prefix);
    let all = split_lines(&text);
    let marker = chars_of("#EXTINF");
    let mut segments: Vec<Segment> = Vec::new();
    let mut i: usize = 0;
    assert(segment_views(segments@) =~= Seq::<SegmentView>::empty());
    while i < all.len()
        invariant
            i <= all.len(),
            views(all@) == lines(playlist@),
            base@ == prefix@,
            marker@ == segment_marker(),
            segments_upto(views(all@), base@, i as int) == Ok::<Seq<SegmentView>, ManifestError>(
                segment_views(segments@),
            ),
        decreases all.len() - i,
    {
        let ghost before = segment_views(segments@);
        if starts_with(&all[i], &marker) {
            match read_segment(&all, &base, i) {
                Ok(segment) => {
                    segments.push(segment);
                    assert(segment_views(segments@) =~= before.push(segment@));
                },
                Err(e) => {
                    proof {
                        lemma_segments_error_stays(
                            views(all@),
                            base@,
                            i + 1,
                            all.len() as int,
                        );
                    }
                    return Err(e);
                },
            }
        }
        i += 1;
    }
    proof {
        lemma_segment_count(views(all@), base@, all.len() as int);
        assert(views(all@).take(all.len() as int) =~= views(all@));
    }
    Ok(segments)
}

/// One variant stream of a master manifest.
#[derive(Debug, Clone, PartialEq, Eq)]
pub struct Stream {
    /// The absolute address of the variant's media manifest.
    pub playlist_url: String,
    /// The variant's bandwidth in bits per second.
    pub bandwidth: u64,
}

/// A variant stream as plain values.
pub struct StreamView {
    pub playlist_url: Seq<char>,
    pub bandwidth: u64,
}

impl View for Stream {
    type V = StreamView;

    open spec fn view(&self) -> StreamView {
        StreamView { playlist_url: self.playlist_url@, bandwidth: self.bandwidth }
    }
}

impl Stream {
    /// The variant whose media manifest is at the address `link`.
    pub fn from_link(link: Link, bandwidth: u64) -> (s: Stream)
        ensures
            s@ == (StreamView { playlist_url: link.href@, bandwidth }),
    {
        Stream { playlist_url: link.href, bandwidth }
    }
}

/// The views of a sequence of variant streams.
pub open spec fn stream_views(v: Seq<Stream>) -> Seq<StreamView> {
    v.map_values(|s: Stream| s@)
}

/// The text that begins a variant line.
pub open spec fn variant_marker() -> Seq<char> {
    "#EXT-X-STREAM-INF"@
}

/// The text that stands before a variant's bandwidth.
pub open spec fn bandwidth_key() -> Seq<char> {
    "BANDWIDTH="@
}

/// The bandwidth field of a variant line: what stands between the line's
/// first `BANDWIDTH=` and the first comma after it.
pub open spec fn bandwidth_field(line: Seq<char>) -> Option<Seq<char>> {
    match find(line, bandwidth_key()) {
        None => None,
        Some(b) => match find(line.skip(b), comma()) {
            None => None,
            Some(e) => Some(line.subrange(b + bandwidth_key().len(), b + e)),
        },
    }
}

/// The variant that the marker line `i` and the line after it describe.
pub open spec fn variant_at(lines: Seq<Seq<char>>, prefix: Seq<char>, i: int) -> Result<
    StreamView,
    ManifestError,
> {
    match bandwidth_field(lines[i]) {
        None => Err(ManifestError::MalformedBandwidth),
        Some(field) => match parse_u64_spec(field) {
            None => Err(ManifestError::MalformedBandwidth),
            Some(bandwidth) => if i + 1 >= lines.len() {
                Err(ManifestError::MissingUri)
            } else {
                match resolve_spec(prefix, lines[i + 1]) {
                    None => Err(ManifestError::UnresolvedUri),
                    Some(parts) => Ok(StreamView { playlist_url: parts.0, bandwidth }),
                }
            },
        },
    }
}

/// Whether a line describes a variant.
pub open spec fn is_variant_line(line: Seq<char>) -> bool {
    occurs_at(line, variant_marker(), 0)
}

/// The variants that the first `n` lines describe, in order, or the error
/// of the first variant line among them that cannot be read.
pub open spec fn variants_upto(lines: Seq<Seq<char>>, prefix: Seq<char>, n: int) -> Result<
    Seq<StreamView>,
    ManifestError,
>
    decreases n,
{
    if n <= 0 {
        Ok(Seq::empty())
    } else {
        match variants_upto(lines, prefix, n - 1) {
            Err(e) => Err(e),
            Ok(variants) => if is_variant_line(lines[n - 1]) {
                match variant_at(lines, prefix, n - 1) {
                    Ok(variant) => Ok(variants.push(variant)),
                    Err(e) => Err(e),
                }
            } else {
                Ok(variants)
            },
        }
    }
}

/// The variants of a master manifest, in document order.
pub open spec fn parse_variants_spec(text: Seq<char>, prefix: Seq<char>) -> Result<
    Seq<StreamView>,
    ManifestError,
> {
    variants_upto(lines(text), prefix, lines(text).len() as int)
}

/// Variant `k` is the one to play: no variant has more bandwidth, and every
/// variant before it has less.
pub open spec fn is_best(variants: Seq<StreamView>, k: int) -> bool {
    &&& 0 <= k < variants.len()
    &&& forall|j: int| 0 <= j < variants.len() ==> variants[j].bandwidth <= variants[k].bandwidth
    &&& forall|j: int| 0 <= j < k ==> variants[j].bandwidth < variants[k].bandwidth
}

/// What a master manifest resolves to: its best variant. A manifest
/// without variants is an error.
pub open spec fn parse_master_spec(text: Seq<char>, prefix: Seq<char>) -> Result<
    StreamView,
    ManifestError,
> {
    match parse_variants_spec(text, prefix) {
        Err(e) => Err(e),
        Ok(variants) => if variants.len() == 0 {
            Err(ManifestError::EmptyVariantSet)
        } else {
            Ok(variants[choose|k: int| is_best(variants, k)])
        },
    }
}

/// At most one variant is the best.
pub proof fn lemma_best_is_unique(variants: Seq<StreamView>, a: int, b: int)
    requires
        is_best(variants, a),
        is_best(variants, b),
    ensures
        a == b,
{
    if a < b {
        assert(variants[a].bandwidth < variants[b].bandwidth);
        assert(variants[b].bandwidth <= variants[a].bandwidth);
    }
    if b < a {
        assert(variants[b].bandwidth < variants[a].bandwidth);
        assert(variants[a].bandwidth <= variants[b].bandwidth);
    }
}

/// An error among the first lines is the error of the whole manifest.
pub proof fn lemma_variants_error_stays(
    lines: Seq<Seq<char>>,
    prefix: Seq<char>,
    n: int,
    m: int,
)
    requires
        n <= m,
        variants_upto(lines, prefix, n) is Err,
    ensures
        variants_upto(lines, prefix, m) == variants_upto(lines, prefix, n),
    decreases m - n,
{
    if n < m {
        lemma_variants_error_stays(lines, prefix, n, m - 1);
    }
}

/// Reads the bandwidth field of a variant line, or gives `None` where the
/// line has no readable bandwidth.
pub fn read_bandwidth(line: &Vec<char>) -> (r: Option<u64>)
    ensures
        r == match bandwidth_field(line@) {
            None => None,
            Some(field) => parse_u64_spec(field),
        },
{
    let key = chars_of("BANDWIDTH=");
    let comma_pattern: Vec<char> = vec![','];
    assert(comma_pattern@ =~= comma());
    let b = match find_in(line, &key) {
        Some(b) => b,
        None => {
            return None;
        },
    };
    assert(occurs_at(line@, bandwidth_key(), b as int) && b <= line.len());
    let rest = slice_of(line, b, line.len());
    assert(rest@ =~= line@.skip(b as int));
    let e = match find_in(&rest, &comma_pattern) {
        Some(e) => e,
        None => {
            return None;
        },
    };
    proof {
        reveal_strlit("BANDWIDTH=");
        assert(occurs_at(rest@, comma(), e as int));
        assert(rest@.subrange(e as int, e + 1)[0] == ',');
        if e < key.len() {
            assert(line@.subrange(b as int, b + key@.len())[e as int] == rest@[e as int]);
        }
    }
    let field = slice_of(line, b + key.len(), b + e);
    parse_u64(&field)
}

/// Reads the variant that the marker line `i` and the line after it describe.
fn read_variant(lines: &Vec<Vec<char>>, prefix: &Vec<char>, i: usize) -> (r: Result<
    Stream,
    ManifestError,
>)
    requires
        i < lines.len(),
    ensures
        match r {
            Ok(variant) => variant_at(views(lines@), prefix@, i as int) == Ok::<
                StreamView,
                ManifestError,
            >(variant@),
            Err(e) => variant_at(views(lines@), prefix@, i as int) == Err::<
                StreamView,
                ManifestError,
            >(e),
        },
{
    let bandwidth = match read_bandwidth(&lines[i]) {
        Some(b) => b,
        None => {
            return Err(ManifestError::MalformedBandwidth);
        },
    };
    if i + 1 >= lines.len() {
        return Err(ManifestError::MissingUri);
    }
    match resolve(prefix, &lines[i + 1]) {
        None => Err(ManifestError::UnresolvedUri),
        Some(link) => Ok(Stream::from_link(link, bandwidth)),
    }
}

/// Reads the variants of a master manifest, in document order.
pub fn parse_variants(playlist: &str, prefix: &str) -> (r: Result<Vec<Stream>, ManifestError>)
    ensures
        match r {
            Ok(variants) => parse_variants_spec(playlist@, prefix@) == Ok::<
                Seq<StreamView>,
                ManifestError,
            >(stream_views(variants@)),
            Err(e) => parse_variants_spec(playlist@, prefix@) == Err::<
                Seq<StreamView>,
                ManifestError,
            >(e),
        },
{
    let text = chars_of(playlist);
    let base = chars_of(prefix);
    let all = split_lines(&text);
    let marker = chars_of("#EXT-X-STREAM-INF");
    let mut variants: Vec<Stream> = Vec::new();
    let mut i: usize = 0;
    assert(stream_views(variants@) =~= Seq::<StreamView>::empty());
    while i < all.len()
        invariant
            i <= all.len(),
            views(all@) == lines(playlist@),
            base@ == prefix@,
            marker@ == variant_marker(),
            variants_upto(views(all@), base@, i as int) == Ok::<Seq<StreamView>, ManifestError>(
                stream_views(variants@),
            ),
        decreases all.len() - i,
    {
        let ghost before = stream_views(variants@);
        if starts_with(&all[i], &marker) {
            match read_variant(&all, &base, i) {
                Ok(variant) => {
                    variants.push(variant);
                    assert(stream_views(variants@) =~= before.push(variant@));
                },
                Err(e) => {
                    proof {
                        lemma_variants_error_stays(
                            views(all@),
                            base@,
                            i + 1,
                            all.len() as int,
                        );
                    }
                    return Err(e);
                },
            }
        }
        i += 1;
    }
    Ok(variants)
}

/// Picks the variant to play: the one with the most bandwidth, and of
/// several with the most, the first.
pub fn select_variant(variants: &Vec<Stream>) -> (r: Option<usize>)
    ensures
        match r {
            Some(k) => is_best(stream_views(variants@), k as int),
            None => variants.len() == 0,
        },
{
    if variants.len() == 0 {
        return None;
    }
    let mut best: usize = 0;
    let mut i: usize = 1;
    while i < variants.len()
        invariant
            1 <= i <= variants.len(),
            best < i,
            is_best(stream_views(variants@).take(i as int), best as int),
        decreases variants.len() - i,
    {
        if variants[i].bandwidth > variants[best].bandwidth {
            best = i;
        }
        i += 1;
        proof {
            let now = stream_views(variants@).take(i as int);
            let was = stream_views(variants@).take(i - 1);
            assert forall|j: int| 0 <= j < now.len() implies now[j].bandwidth
                <= now[best as int].bandwidth by {
                if j < i - 1 {
                    assert(was[j] == now[j]);
                }
            }
            assert forall|j: int| 0 <= j < best implies now[j].bandwidth
                < now[best as int].bandwidth by {
                assert(was[j] == now[j]);
            }
        }
    }
    assert(stream_views(variants@).take(i as int) =~= stream_views(variants@));
    Some(best)
}

/// Reads a master manifest and picks its best variant.
pub fn parse_playlist_master(playlist: &str, prefix: &str) -> (r: Result<Stream, ManifestError>)
    ensures
        match r {
            Ok(stream) => parse_master_spec(playlist@, prefix@) == Ok::<StreamView, ManifestError>(
                stream@,
            ),
            Err(e) => parse_master_spec(playlist@, prefix@) == Err::<StreamView, ManifestError>(e),
        },
{
    let mut variants = match parse_variants(playlist, prefix) {
        Ok(v) => v,
        Err(e) => {
            return Err(e);
        },
    };
    match select_variant(&variants) {
        None => Err(ManifestError::EmptyVariantSet),
        Some(k) => {
            proof {
                let all = stream_views(variants@);
                let chosen = choose|j: int| is_best(all, j);
                lemma_best_is_unique(all, k as int, chosen);
            }
            Ok(variants.swap_remove(k))
        },
    }
}

/// A media manifest that has been read: its segments and their total
/// playing time in microseconds.
#[derive(Debug)]
pub struct Playlist {
    total_duration: u128,
    segments: Vec<Segment>,
}

/// A playlist as plain values.
pub struct PlaylistView {
    pub total_duration: nat,
    pub segments: Seq<SegmentView>,
}

/// The sum of the playing times of a sequence of segments.
pub open spec fn total_duration_of(segments: Seq<SegmentView>) -> nat
    decreases segments.len(),
{
    if segments.len() == 0 {
        0
    } else {
        total_duration_of(segments.drop_last()) + segments.last().duration as nat
    }
}

/// The total of `n` playing times is at most `n` times the largest 64-bit value.
pub proof fn lemma_total_duration_bound(segments: Seq<SegmentView>)
    ensures
        total_duration_of(segments) <= segments.len() * u64::MAX,
    decreases segments.len(),
{
    if segments.len() > 0 {
        lemma_total_duration_bound(segments.drop_last());
        assert((segments.len() - 1) * u64::MAX + u64::MAX == segments.len() * u64::MAX)
            by (nonlinear_arith);
    }
}

impl View for Playlist {
    type V = PlaylistView;

    closed spec fn view(&self) -> PlaylistView {
        PlaylistView {
            total_duration: self.total_duration as nat,
            segments: segment_views(self.segments@),
        }
    }
}

impl Playlist {
    #[verifier::type_invariant]
    spec fn consistent(self) -> bool {
        self.total_duration == total_duration_of(segment_views(self.segments@))
    }

    /// Makes a playlist of the given segments and adds up their playing times.
    pub fn new(segments: Vec<Segment>) -> (p: Playlist)
        ensures
            p@.segments == segment_views(segments@),
            p@.total_duration == total_duration_of(p@.segments),
    {
        let mut total: u128 = 0;
        let mut i: usize = 0;
        assert(segment_views(segments@).take(0) =~= Seq::<SegmentView>::empty());
        while i < segments.len()
            invariant
                i <= segments.len(),
                total == total_duration_of(segment_views(segments@).take(i as int)),
            decreases segments.len() - i,
        {
            proof {
                let upto = segment_views(segments@).take(i + 1);
                assert(upto.drop_last() =~= segment_views(segments@).take(i as int));
                assert(upto.last() == segments@[i as int]@);
                lemma_total_duration_bound(upto);
                assert(upto.len() * u64::MAX <= usize::MAX * u64::MAX) by (nonlinear_arith)
                    requires
                        upto.len() <= usize::MAX,
                ;
                assert(usize::MAX * u64::MAX <= u128::MAX) by (nonlinear_arith)
                    requires
                        usize::MAX <= u64::MAX,
                        u64::MAX == 0xffff_ffff_ffff_ffff,
                        u128::MAX == 0xffff_ffff_ffff_ffff_ffff_ffff_ffff_ffff,
                ;
            }
            total = total + segments[i].duration as u128;
            i += 1;
        }
        assert(segment_views(segments@).take(i as int) =~= segment_views(segments@));
        Playlist { total_duration: total, segments }
    }

    /// The sum of the segments' playing times, in microseconds.
    pub fn total_duration(&self) -> (t: u128)
        ensures
            t == self@.total_duration,
            t == total_duration_of(self@.segments),
    {
        proof {
            use_type_invariant(self);
        }
        self.total_duration
    }

    /// The segments, in manifest order.
    pub fn segments(&self) -> (s: &Vec<Segment>)
        ensures
            segment_views(s@) == self@.segments,
    {
        &self.segments
    }
}

/// Reads a media manifest into a playlist.
pub fn parse_playlist_segments(playlist: &str, prefix: &str) -> (r: Result<
    Playlist,
    ManifestError,
>)
    ensures
        match r {
            Ok(p) => {
                &&& parse_segments_spec(playlist@, prefix@) == Ok::<
                    Seq<SegmentView>,
                    ManifestError,
                >(p@.segments)
                &&& p@.total_duration == total_duration_of(p@.segments)
                &&& p@.segments.len() == segment_line_count(playlist@)
            },
            Err(e) => parse_segments_spec(playlist@, prefix@) == Err::<
                Seq<SegmentView>,
                ManifestError,
            >(e),
        },
{
    match parse_segments(playlist, prefix) {
        Ok(segments) => Ok(Playlist::new(segments)),
        Err(e) => Err(e),
    }
}

/// What the first document fetched for a playlist address turns out to be.
#[derive(Debug)]
pub enum Manifest {
    /// A master manifest; the variant to fetch next is its best one.
    Master(Stream),
    /// A media manifest.
    Media(Playlist),
}

/// Whether a document is a master manifest: it holds the variant marker.
pub open spec fn is_master(text: Seq<char>) -> bool {
    find(text, variant_marker()) is Some
}

/// The base path of a manifest's address: the address up to and including
/// its last `/`.
pub fn base_path(playlist_url: &str) -> (r: Result<String, ManifestError>)
    ensures
        match r {
            Ok(prefix) => through_last(playlist_url@, '/') == Some(prefix@),
            Err(e) => e == ManifestError::NoBasePath && through_last(playlist_url@, '/') is None,
        },
{
    match head_through(&chars_of(playlist_url), '/') {
        Some(h) => Ok(string_of(&h)),
        None => Err(ManifestError::NoBasePath),
    }
}

/// Reads the document fetched from `playlist_url`. A master manifest
/// resolves to its best variant, whose media manifest is to be fetched and
/// read with `parse_playlist_segments` against the same base path; any other
/// document is read as a media manifest.
pub fn parse_playlist(text: &str, playlist_url: &str) -> (r: Result<Manifest, ManifestError>)
    ensures
        match through_last(playlist_url@, '/') {
            None => r == Err::<Manifest, ManifestError>(ManifestError::NoBasePath),
            Some(prefix) => match r {
                Ok(Manifest::Master(stream)) => is_master(text@) && parse_master_spec(text@, prefix)
                    == Ok::<StreamView, ManifestError>(stream@),
                Ok(Manifest::Media(p)) => {
                    &&& !is_master(text@)
                    &&& parse_segments_spec(text@, prefix) == Ok::<
                        Seq<SegmentView>,
                        ManifestError,
                    >(p@.segments)
                    &&& p@.total_duration == total_duration_of(p@.segments)
                    &&& p@.segments.len() == segment_line_count(text@)
                },
                Err(e) => if is_master(text@) {
                    parse_master_spec(text@, prefix) == Err::<StreamView, ManifestError>(e)
                } else {
                    parse_segments_spec(text@, prefix) == Err::<Seq<SegmentView>, ManifestError>(e)
                },
            },
        },
{
    let prefix = match base_path(playlist_url) {
        Ok(p) => p,
        Err(e) => {
            return Err(e);
        },
    };
    let marker = chars_of("#EXT-X-STREAM-INF");
    match find_in(&chars_of(text), &marker) {
        Some(_) => match parse_playlist_master(text, prefix.as_str()) {
            Ok(stream) => Ok(Manifest::Master(stream)),
            Err(e) => Err(e),
        },
        None => match parse_playlist_segments(text, prefix.as_str()) {
            Ok(p) => Ok(Manifest::Media(p)),
            Err(e) => Err(e),
        },
    }
}

} // verus!
