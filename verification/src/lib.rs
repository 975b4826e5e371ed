//! Rules for fetching media that is delivered in pieces and joining the
//! pieces into one file.
//!
//! A source is either a playlist, whose manifest lists segments, or one
//! large file, which is cut into byte ranges. `manifest` reads manifests,
//! `video` plans byte ranges, `job` turns either into a download job and
//! `schedule` holds the rules that every job follows. The library makes no
//! request and touches no file: its caller fetches and stores what a job
//! orders and reports back how it went.

pub mod decimal;
pub mod error;
pub mod job;
pub mod link;
pub mod manifest;
pub mod options;
pub mod schedule;
pub mod search;
pub mod text;
pub mod video;
