//! Turns word-level speech-recognition output into SubRip (`.srt`) subtitle
//! text: every recognized word becomes one numbered, timestamped subtitle
//! entry.

pub mod subtitle;
pub mod time_format;
