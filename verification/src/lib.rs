//! Verified core of a small line-oriented text toolkit.
//!
//! The heart of the crate is the lockstep merge comparator over two sorted
//! line sequences (`merge`) and the adjacent-duplicate collapser (`dedup`),
//! together with the counting and formatting helpers the surrounding tools
//! share. All I/O stays outside: callers hand the core plain line values and
//! receive fully formatted output rows back.

pub mod counts;
pub mod dedup;
pub mod merge;
pub mod numfmt;
pub mod parse;
pub mod text;
