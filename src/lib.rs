//! Reads a listening log (date lines, each followed by "artists – album"
//! entries with an optional repeat count) and ranks albums and artists by
//! how often they were listened to, with competition ranks.
pub mod artist;
pub mod counter;
pub mod freq;
pub mod line;
pub mod log;
pub mod rank;
pub mod ranking;
pub mod report;
pub mod text;
