//! Listing configuration: the root path and the switches that pick a
//! renderer and its options. The library never mutates a configuration.

use vstd::prelude::*;

verus! {

/// All options of one listing invocation.
#[derive(Debug)]
pub struct Config {
    /// The directory path to list.
    pub path: String,
    /// Whether to render the detailed table instead of the flat list.
    pub long_format: bool,
    /// Whether names starting with a dot are shown.
    pub show_hidden: bool,
    /// Whether names are wrapped in terminal hyperlinks.
    pub interactive: bool,
    /// Whether to render the recursive tree (overrides the table).
    pub tree: bool,
    /// Optional cap on tree recursion depth.
    pub tree_depth: Option<usize>,
}

} // verus!
