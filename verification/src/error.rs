//! The failures that the downloader tells apart.

use vstd::prelude::*;

verus! {

/// A failure with a meaning of its own to the download logic.
#[derive(PartialEq, Eq, Structural, Clone, Copy, Debug)]
pub enum IgLiveError {
    /// The server answered a probe with "not found".
    StatusNotFound,
    /// A segment was fetched, but its decoded timestamp lies before the
    /// accepted watermark.
    PtsTooEarly,
    /// A URL has no path segment that could serve as a file name.
    InvalidUrl,
    /// The manifest offers no usable video or audio representation.
    EmptyManifest,
}

impl IgLiveError {
    /// A short description for diagnostics.
    pub fn message(&self) -> (text: &'static str)
        ensures
            text@ == match *self {
                IgLiveError::StatusNotFound => "segment not found"@,
                IgLiveError::PtsTooEarly => "segment timestamp too early"@,
                IgLiveError::InvalidUrl => "invalid URL"@,
                IgLiveError::EmptyManifest => "manifest has no usable media"@,
            },
    {
        match self {
            IgLiveError::StatusNotFound => "segment not found",
            IgLiveError::PtsTooEarly => "segment timestamp too early",
            IgLiveError::InvalidUrl => "invalid URL",
            IgLiveError::EmptyManifest => "manifest has no usable media",
        }
    }
}

} // verus!
