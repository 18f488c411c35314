//! Regex find-and-replace over byte documents, where only selected capture
//! groups of each match are substituted.

pub mod cmd;
pub mod laws;
pub mod pattern;
pub mod replace;
pub mod types;
