//! Segment URLs. A URL is held as its text; resolving and taking apart is
//! the work of the `url` crate, as `reqwest` hands it on.

use crate::error::IgLiveError;
use reqwest::Url;
use vstd::prelude::*;

verus! {

/// The text of the URL that `reference` denotes when read relative to the
/// absolute URL `base`; none where `base` is no absolute URL or `reference`
/// cannot be resolved against it.
pub uninterp spec fn resolved_url(base: Seq<char>, reference: Seq<char>) -> Option<Seq<char>>;

/// The segments of the path of the absolute URL `url`, from first to last;
/// none where `url` is no absolute URL or one that cannot be a base.
pub uninterp spec fn url_path_segments(url: Seq<char>) -> Option<Seq<Seq<char>>>;

/// The texts of `list`, one by one.
pub open spec fn texts(list: Seq<String>) -> Seq<Seq<char>> {
    Seq::new(list.len(), |i: int| list[i]@)
}

/// `Url::join` on the URL that `Url::parse` makes of `base`. Trusted: the
/// serialization of the joined URL is the named result, and there is none
/// exactly where one of the two calls fails.
#[verifier::external_body]
fn resolve(base: &str, reference: &str) -> (url: Option<String>)
    ensures
        url is Some == resolved_url(base@, reference@) is Some,
        url matches Some(text) ==> resolved_url(base@, reference@) == Some(text@),
{
    match Url::parse(base) {
        Ok(parsed) => match parsed.join(reference) {
            Ok(joined) => Some(String::from(joined)),
            Err(_) => None,
        },
        Err(_) => None,
    }
}

/// `Url::path_segments` on the URL that `Url::parse` makes of `url`.
/// Trusted: the segments it iterates over, in order, are the named result,
/// and there is none exactly where parsing fails or the URL has no segments
/// to give; where it gives segments, it gives one at least.
#[verifier::external_body]
fn path_segments(url: &str) -> (segments: Option<Vec<String>>)
    ensures
        segments is Some == url_path_segments(url@) is Some,
        segments matches Some(list) ==> url_path_segments(url@) == Some(texts(list@)),
        segments matches Some(list) ==> list@.len() > 0,
{
    match Url::parse(url) {
        Ok(parsed) => match parsed.path_segments() {
            Some(parts) => Some(parts.map(String::from).collect()),
            None => None,
        },
        Err(_) => None,
    }
}

/// The URL text, or the failure to build one.
pub fn checked_url(resolved: Option<String>) -> (url: Result<String, IgLiveError>)
    ensures
        match resolved {
            Some(text) => url == Ok::<String, IgLiveError>(text),
            None => url == Err::<String, IgLiveError>(IgLiveError::InvalidUrl),
        },
{
    match resolved {
        Some(text) => Ok(text),
        None => Err(IgLiveError::InvalidUrl),
    }
}

/// The last of the path segments, which names the file a segment is kept
/// in; [`IgLiveError::InvalidUrl`] where there is none.
pub fn last_segment(segments: Option<Vec<String>>) -> (name: Result<String, IgLiveError>)
    ensures
        match name {
            Ok(text) => segments matches Some(list) && list@.len() > 0 && text == list@.last(),
            Err(e) => e == IgLiveError::InvalidUrl && (segments matches Some(list) ==> list@.len()
                == 0),
        },
{
    match segments {
        Some(mut list) => match list.pop() {
            Some(text) => Ok(text),
            None => Err(IgLiveError::InvalidUrl),
        },
        None => Err(IgLiveError::InvalidUrl),
    }
}

/// The URL that `reference` denotes relative to `base`.
pub fn join_url(base: &str, reference: &str) -> (url: Result<String, IgLiveError>)
    ensures
        match url {
            Ok(text) => resolved_url(base@, reference@) == Some(text@),
            Err(e) => e == IgLiveError::InvalidUrl && resolved_url(base@, reference@) is None,
        },
{
    checked_url(resolve(base, reference))
}

/// The name of the file that the segment at `url` is kept in: the last
/// segment of the URL's path.
pub fn segment_file_name(url: &str) -> (name: Result<String, IgLiveError>)
    ensures
        match name {
            Ok(text) => url_path_segments(url@) matches Some(parts) && parts.len() > 0 && text@
                == parts.last(),
            Err(e) => e == IgLiveError::InvalidUrl && url_path_segments(url@) is None,
        },
{
    last_segment(path_segments(url))
}

} // verus!
