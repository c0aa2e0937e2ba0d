//! Decoding of Senate ballot papers.
//!
//! A ballot paper arrives as one comma-separated string of preference boxes:
//! first one box per group (above the line), then one box per candidate
//! (below the line). This library turns such a string, together with the
//! groups and candidates of the voter's state, into the ordered list of
//! candidates the voter chose, or into a typed error.

pub mod ballot;
pub mod candidate;
pub mod group;
pub mod laws;
pub mod preference_map;
pub mod token;
