//! Finding the address of a video or a playlist in the text of a web page.

use vstd::prelude::*;
use crate::error::ExtensionError;
use crate::link::{media_kind, media_kind_spec, parse_url, parsed_url, Link, MediaKind};
use crate::text::{chars_of, find, find_in, occurs_at, slice_of, string_of};

verus! {

/// Why no media address was found in a page.
#[derive(Debug, Clone, Copy, PartialEq, Eq)]
pub enum SearchError {
    /// The page mentions neither a playlist nor a video file.
    NoMedia,
    /// The mention does not stand between two quotation marks.
    NotQuoted,
    /// The quoted text is not an absolute URL.
    InvalidUrl,
}

/// `c` is a single or a double quotation mark.
pub open spec fn is_quote(c: char) -> bool {
    c == '\'' || c == '"'
}

/// `a` is the position of the last quotation mark before position `at`.
pub open spec fn opens_quote(s: Seq<char>, at: int, a: int) -> bool {
    0 <= a < at <= s.len() && is_quote(s[a]) && forall|j: int| a < j < at ==> !is_quote(s[j])
}

/// `b` is the position of the first quotation mark at or after position `at`.
pub open spec fn closes_quote(s: Seq<char>, at: int, b: int) -> bool {
    0 <= at <= b < s.len() && is_quote(s[b]) && forall|j: int| at <= j < b ==> !is_quote(s[j])
}

/// The text between the quotation marks that enclose position `at`.
pub open spec fn quoted_around(s: Seq<char>, at: int) -> Option<Seq<char>> {
    if (exists|a: int| opens_quote(s, at, a)) && (exists|b: int| closes_quote(s, at, b)) {
        Some(
            s.subrange(
                (choose|a: int| opens_quote(s, at, a)) + 1,
                choose|b: int| closes_quote(s, at, b),
            ),
        )
    } else {
        None
    }
}

/// Where a page first mentions a playlist, or else a video file.
pub open spec fn media_mention(html: Seq<char>) -> Option<int> {
    match find(html, ".m3u8"@) {
        Some(i) => Some(i),
        None => find(html, ".mp4"@),
    }
}

/// The media address of a page: the quoted text around the first mention
/// of a playlist or, where there is none, of a video file, read as an
/// absolute URL.
pub open spec fn find_media_spec(html: Seq<char>) -> Result<(Seq<char>, Seq<char>), SearchError> {
    match media_mention(html) {
        None => Err(SearchError::NoMedia),
        Some(at) => match quoted_around(html, at) {
            None => Err(SearchError::NotQuoted),
            Some(text) => match parsed_url(text) {
                None => Err(SearchError::InvalidUrl),
                Some(parts) => Ok(parts),
            },
        },
    }
}

/// The text between the quotation marks that enclose position `at`.
pub fn quoted_text(s: &Vec<char>, at: usize) -> (r: Option<Vec<char>>)
    requires
        at <= s.len(),
    ensures
        match r {
            Some(text) => quoted_around(s@, at as int) == Some(text@),
            None => quoted_around(s@, at as int) is None,
        },
{
    let mut first: usize = at;
    while first > 0 && !(s[first - 1] == '\'' || s[first - 1] == '"')
        invariant
            first <= at <= s.len(),
            forall|j: int| first <= j < at ==> !is_quote(s@[j]),
        decreases first,
    {
        first -= 1;
    }
    if first == 0 {
        assert forall|k: int| !opens_quote(s@, at as int, k) by {}
        return None;
    }
    let a: usize = first - 1;
    assert(opens_quote(s@, at as int, a as int));
    let mut b: usize = at;
    while b < s.len() && !(s[b] == '\'' || s[b] == '"')
        invariant
            at <= b <= s.len(),
            forall|j: int| at <= j < b ==> !is_quote(s@[j]),
        decreases s.len() - b,
    {
        b += 1;
    }
    if b == s.len() {
        assert forall|k: int| !closes_quote(s@, at as int, k) by {}
        return None;
    }
    proof {
        assert(closes_quote(s@, at as int, b as int));
        let ca = choose|k: int| opens_quote(s@, at as int, k);
        let cb = choose|k: int| closes_quote(s@, at as int, k);
        assert(ca == a) by {
            if ca < a {
                assert(is_quote(s@[a as int]));
            }
            if a < ca {
                assert(is_quote(s@[ca]));
            }
        }
        assert(cb == b) by {
            if cb < b {
                assert(is_quote(s@[cb]));
            }
            if b < cb {
                assert(is_quote(s@[b as int]));
            }
        }
    }
    Some(slice_of(s, a + 1, b))
}

/// Finds the address of a playlist or a video in the text of a page.
///
/// The page is searched for `.m3u8` and, where that does not occur, for
/// `.mp4`. The address is the text around the first occurrence, from the
/// quotation mark before it to the quotation mark after it.
pub fn find_video_or_playlist(html: &str) -> (r: Result<Link, SearchError>)
    ensures
        match r {
            Ok(link) => find_media_spec(html@) == Ok::<(Seq<char>, Seq<char>), SearchError>(
                link.parts(),
            ),
            Err(e) => find_media_spec(html@) == Err::<(Seq<char>, Seq<char>), SearchError>(e),
        },
{
    let page = chars_of(html);
    let at = match find_in(&page, &chars_of(".m3u8")) {
        Some(i) => i,
        None => match find_in(&page, &chars_of(".mp4")) {
            Some(i) => i,
            None => {
                return Err(SearchError::NoMedia);
            },
        },
    };
    assert(at <= page.len()) by {
        assert(occurs_at(page@, ".m3u8"@, at as int) || occurs_at(page@, ".mp4"@, at as int));
    }
    let text = match quoted_text(&page, at) {
        Some(t) => t,
        None => {
            return Err(SearchError::NotQuoted);
        },
    };
    match parse_url(string_of(&text).as_str()) {
        Ok(link) => Ok(link),
        Err(_) => Err(SearchError::InvalidUrl),
    }
}

/// Why an address given by the user leads to nothing that can be fetched.
#[derive(Debug, Clone, Copy, PartialEq, Eq)]
pub enum LocateError {
    /// The text is not an absolute URL.
    InvalidUrl,
    /// The page behind the address holds no media address.
    Search(SearchError),
    /// The media address found in the page names no supported file type.
    Extension(ExtensionError),
}

/// What to do with an address.
#[derive(Debug, Clone, PartialEq, Eq)]
pub enum Located {
    /// Fetch the file at this address in byte ranges.
    Video(Link),
    /// Fetch the playlist at this address.
    Playlist(Link),
    /// The address names neither: fetch the page behind it and search it.
    Page(Link),
}

/// What to do with an address that the user gave: it goes by the file
/// type in the address's path, and an address of another type is taken for
/// a page that may hold a media address.
pub open spec fn locate_spec(url: Seq<char>) -> Result<(MediaStep, Seq<char>, Seq<char>), LocateError> {
    match parsed_url(url) {
        None => Err(LocateError::InvalidUrl),
        Some(parts) => Ok(
            (
                match media_kind_spec(parts.1) {
                    Some(MediaKind::Video) => MediaStep::Video,
                    Some(MediaKind::Playlist) => MediaStep::Playlist,
                    None => MediaStep::Page,
                },
                parts.0,
                parts.1,
            ),
        ),
    }
}

/// The three things that can be done with an address.
pub enum MediaStep {
    Video,
    Playlist,
    Page,
}

impl Located {
    /// The step and the address as plain values.
    pub open spec fn parts(&self) -> (MediaStep, Seq<char>, Seq<char>) {
        match self {
            Located::Video(link) => (MediaStep::Video, link.href@, link.path@),
            Located::Playlist(link) => (MediaStep::Playlist, link.href@, link.path@),
            Located::Page(link) => (MediaStep::Page, link.href@, link.path@),
        }
    }
}

/// Decides what to do with a link, given the kind of source its path names.
pub fn step_for(link: Link, kind: Result<MediaKind, ExtensionError>) -> (r: Located)
    ensures
        r == match kind {
            Ok(MediaKind::Video) => Located::Video(link),
            Ok(MediaKind::Playlist) => Located::Playlist(link),
            Err(_) => Located::Page(link),
        },
{
    match kind {
        Ok(MediaKind::Video) => Located::Video(link),
        Ok(MediaKind::Playlist) => Located::Playlist(link),
        Err(_) => Located::Page(link),
    }
}

/// Decides what to do with an address that the user gave.
pub fn locate(url: &str) -> (r: Result<Located, LocateError>)
    ensures
        match r {
            Ok(found) => locate_spec(url@) == Ok::<(MediaStep, Seq<char>, Seq<char>), LocateError>(
                found.parts(),
            ),
            Err(e) => locate_spec(url@) == Err::<(MediaStep, Seq<char>, Seq<char>), LocateError>(e),
        },
{
    match parse_url(url) {
        Err(_) => Err(LocateError::InvalidUrl),
        Ok(link) => {
            let kind = media_kind(link.path.as_str());
            Ok(step_for(link, kind))
        },
    }
}

/// What the page behind an address leads to: the media address found in
/// it, which must name a video or a playlist.
pub open spec fn locate_in_page_spec(html: Seq<char>) -> Result<
    (MediaStep, Seq<char>, Seq<char>),
    LocateError,
> {
    match find_media_spec(html) {
        Err(e) => Err(LocateError::Search(e)),
        Ok(parts) => match media_kind_spec(parts.1) {
            Some(MediaKind::Video) => Ok((MediaStep::Video, parts.0, parts.1)),
            Some(MediaKind::Playlist) => Ok((MediaStep::Playlist, parts.0, parts.1)),
            None => Err(LocateError::Extension(ExtensionError)),
        },
    }
}

/// Decides what to fetch for a page: the video or the playlist whose
/// address the page holds.
pub fn locate_in_page(html: &str) -> (r: Result<Located, LocateError>)
    ensures
        match r {
            Ok(found) => locate_in_page_spec(html@) == Ok::<
                (MediaStep, Seq<char>, Seq<char>),
                LocateError,
            >(found.parts()),
            Err(e) => locate_in_page_spec(html@) == Err::<
                (MediaStep, Seq<char>, Seq<char>),
                LocateError,
            >(e),
        },
{
    match find_video_or_playlist(html) {
        Err(e) => Err(LocateError::Search(e)),
        Ok(link) => match media_kind(link.path.as_str()) {
            Ok(MediaKind::Video) => Ok(Located::Video(link)),
            Ok(MediaKind::Playlist) => Ok(Located::Playlist(link)),
            Err(e) => Err(LocateError::Extension(e)),
        },
    }
}

} // verus!
