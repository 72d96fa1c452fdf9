//! Backward discovery of live-stream media segments.
//!
//! A live broadcast publishes only its most recent segments, yet older ones
//! stay fetchable by the timestamp in their URL. This library holds the part
//! of a downloader that decides which timestamps to probe next, learns from
//! the answers, and keeps the per-stream bookkeeping. All network and file
//! work is left to the caller.

pub mod candidates;
pub mod container;
pub mod discovery;
pub mod error;
pub mod media;
pub mod mpd;
pub mod ranking;
pub mod resolve;
pub mod state;
pub mod text;
