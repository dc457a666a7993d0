//! A directory-listing library: classification of filesystem entries,
//! human-readable formatting of their attributes, and three rendering
//! modes (flat list, detailed table, recursive tree) with color and
//! hyperlink decoration applied as a post-pass over plain text.

pub mod ansi;
pub mod colors;
pub mod config;
pub mod display;
pub mod file_info;
pub mod formatting;
pub mod text;
