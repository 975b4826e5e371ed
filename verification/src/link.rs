//! Addresses: absolute URLs as the downloader reads them, how a reference
//! found in a manifest is resolved, and what kind of source an address names.

use vstd::prelude::*;
use crate::error::ExtensionError;
use crate::text::{
    after_last, chars_of, join, occurs_at, starts_with, string_of, tail_after,
};

verus! {

/// `url::ParseError`, the error that `url::Url::parse` gives for a text
/// that is no absolute URL. The library hands it on and never looks inside.
#[verifier::external_type_specification]
#[verifier::external_body]
pub struct ExUrlParseError(url::ParseError);

/// An absolute URL, held as the two texts that the downloader reads.
#[derive(Debug, Clone, PartialEq, Eq)]
pub struct Link {
    /// The whole address in its normal form.
    pub href: String,
    /// Its path component, percent-encoded.
    pub path: String,
}

/// The normal form and the path of the absolute URL that a text denotes, as
/// the `url` crate reads it; `None` for a text that is no absolute URL.
pub uninterp spec fn parsed_url(text: Seq<char>) -> Option<(Seq<char>, Seq<char>)>;

/// Calls `url::Url::parse` and, on success, copies out what `Url::as_str`
/// and `Url::path` return. The contract only gives these results a name: the
/// same text always yields the same answer, and nothing more is claimed.
#[verifier::external_body]
pub(crate) fn parse_url(text: &str) -> (r: Result<Link, url::ParseError>)
    ensures
        match r {
            Ok(link) => parsed_url(text@) == Some(link.parts()),
            Err(_) => parsed_url(text@) is None,
        },
{
    match url::Url::parse(text) {
        Ok(u) => Ok(Link { href: u.as_str().to_string(), path: u.path().to_string() }),
        Err(e) => Err(e),
    }
}

impl Link {
    /// The address and its path as character sequences.
    pub open spec fn parts(&self) -> (Seq<char>, Seq<char>) {
        (self.href@, self.path@)
    }
}

/// What a reference means next to a base path: itself where it is an
/// absolute URL, else the base path with the reference appended, if that is
/// one.
pub open spec fn resolve_spec(prefix: Seq<char>, reference: Seq<char>) -> Option<
    (Seq<char>, Seq<char>),
> {
    match parsed_url(reference) {
        Some(parts) => Some(parts),
        None => parsed_url(prefix + reference),
    }
}

/// Resolves a reference found in a manifest against the base path.
pub fn resolve(prefix: &Vec<char>, reference: &Vec<char>) -> (r: Option<Link>)
    ensures
        match r {
            Some(link) => resolve_spec(prefix@, reference@) == Some(link.parts()),
            None => resolve_spec(prefix@, reference@) is None,
        },
{
    let direct = string_of(reference);
    match parse_url(direct.as_str()) {
        Ok(link) => Some(link),
        Err(_) => {
            let joined = string_of(&join(prefix, reference));
            match parse_url(joined.as_str()) {
                Ok(link) => Some(link),
                Err(_) => None,
            }
        },
    }
}

/// The kinds of source that the downloader can fetch.
#[derive(Debug, Clone, Copy, PartialEq, Eq)]
pub enum MediaKind {
    /// One large file, fetched in byte ranges.
    Video,
    /// A playlist of segments.
    Playlist,
}

/// The kind of source that a path names. It goes by what follows the last
/// `.` of the path: `mp4` is a video, `m3u8` a playlist, anything else is
/// not supported.
pub open spec fn media_kind_spec(path: Seq<char>) -> Option<MediaKind> {
    let ext = after_last(path, '.');
    if ext == "mp4"@ {
        Some(MediaKind::Video)
    } else if ext == "m3u8"@ {
        Some(MediaKind::Playlist)
    } else {
        None
    }
}

/// Tells from its path what kind of source an address names.
pub fn media_kind(path: &str) -> (r: Result<MediaKind, ExtensionError>)
    ensures
        match r {
            Ok(kind) => media_kind_spec(path@) == Some(kind),
            Err(_) => media_kind_spec(path@) is None,
        },
{
    let ext = tail_after(&chars_of(path), '.');
    let mp4 = chars_of("mp4");
    let m3u8 = chars_of("m3u8");
    if same_text(&ext, &mp4) {
        Ok(MediaKind::Video)
    } else if same_text(&ext, &m3u8) {
        Ok(MediaKind::Playlist)
    } else {
        Err(ExtensionError)
    }
}

/// Whether two texts hold the same characters.
pub fn same_text(a: &Vec<char>, b: &Vec<char>) -> (r: bool)
    ensures
        r == (a@ == b@),
{
    if a.len() != b.len() {
        return false;
    }
    let mut i: usize = 0;
    while i < a.len()
        invariant
            i <= a.len(),
            a.len() == b.len(),
            forall|j: int| 0 <= j < i ==> a@[j] == b@[j],
        decreases a.len() - i,
    {
        if a[i] != b[i] {
            return false;
        }
        i += 1;
    }
    assert(a@ =~= b@);
    true
}

/// What an address given on the command line must begin with.
pub open spec fn web_scheme() -> Seq<char> {
    "http"@
}

/// Accepts an address that begins with `http` and hands it back unchanged;
/// any other text is refused with a message.
pub fn url_parser(url: &str) -> (r: Result<String, String>)
    ensures
        match r {
            Ok(accepted) => occurs_at(url@, web_scheme(), 0) && accepted@ == url@,
            Err(message) => !occurs_at(url@, web_scheme(), 0) && message@
                == "URL must start with http or https"@,
        },
{
    let text = chars_of(url);
    if starts_with(&text, &chars_of("http")) {
        Ok(string_of(&text))
    } else {
        Err(string_of(&chars_of("URL must start with http or https")))
    }
}

} // verus!
