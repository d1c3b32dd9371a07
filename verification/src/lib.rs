//! Offline analysis of video files: discovers candidates, derives an exact
//! bits-per-pixel (BPP) compression metric from probed stream metadata,
//! classifies codecs, and plans idempotent rename marking.

pub mod discover;
pub mod driver;
pub mod metric;
pub mod paths;
pub mod probe;
pub mod report;
pub mod text;
