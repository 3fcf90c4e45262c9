//! Disk usage summaries: a size-aggregated tree of directories and files, rendered
//! either as an indented tree or as a ranking of the largest files.
//!
//! The library holds the rules and leaves the reading of the file system and the
//! printing to its caller: it is handed what was read as plain values and hands
//! back the lines to print.

pub mod arguments;
pub mod entry;
pub mod modes;
pub mod ranking;
pub mod root;
pub mod rounding;
pub mod text;
pub mod utils;
