//! Renderer behavior with colors forced off: decoration is the identity,
//! so output can be compared literally.

use fls::colors::make_clickable_link;
use fls::config::Config;
use fls::display::{join_path, list_directory, sort_entries, Listing, RawEntry};
use fls::file_info::EntryMeta;

fn cfg(long_format: bool, show_hidden: bool, interactive: bool) -> Config {
    Config {
        path: String::from("/root"),
        long_format,
        show_hidden,
        interactive,
        tree: false,
        tree_depth: None,
    }
}

fn meta(mode: u32, size: u64, is_dir: bool) -> Option<EntryMeta> {
    Some(EntryMeta {
        mode,
        size,
        is_dir,
        is_symlink: false,
        uid: 999999,
        gid: 999999,
        modified: None,
    })
}

fn sample_entries() -> Vec<RawEntry> {
    vec![
        RawEntry { name: String::from("sub"), meta: meta(0o755, 4096, true) },
        RawEntry { name: String::from("a.txt"), meta: meta(0o640, 10, false) },
        RawEntry { name: String::from(".cfg"), meta: meta(0o600, 1, false) },
    ]
}

#[test]
fn flat_listing_sorted_and_hidden_filtered() {
    colored::control::set_override(false);
    let out = list_directory(Listing::Flat(sample_entries()), &cfg(false, false, false), "/root");
    assert_eq!(out, vec![String::from("a.txt"), String::from("sub")]);
}

#[test]
fn flat_listing_shows_hidden_when_asked() {
    colored::control::set_override(false);
    let out = list_directory(Listing::Flat(sample_entries()), &cfg(false, true, false), "/root");
    assert_eq!(
        out,
        vec![String::from(".cfg"), String::from("a.txt"), String::from("sub")]
    );
}

#[test]
fn flat_listing_metadata_error_prints_plain_name() {
    colored::control::set_override(false);
    let entries = vec![RawEntry { name: String::from("ghost"), meta: None }];
    let out = list_directory(Listing::Flat(entries), &cfg(false, false, true), "/root");
    assert_eq!(out, vec![String::from("ghost")]);
}

#[test]
fn sort_is_bytewise_by_name() {
    let entries = vec![
        RawEntry { name: String::from("b"), meta: None },
        RawEntry { name: String::from("B"), meta: None },
        RawEntry { name: String::from("a"), meta: None },
        RawEntry { name: String::from("ab"), meta: None },
    ];
    let sorted = sort_entries(entries);
    let names: Vec<&str> = sorted.iter().map(|e| e.name.as_str()).collect();
    assert_eq!(names, vec!["B", "a", "ab", "b"]);
}

#[test]
fn table_has_header_and_two_data_rows() {
    colored::control::set_override(false);
    let out = list_directory(Listing::Flat(sample_entries()), &cfg(true, false, false), "/root");
    assert_eq!(out.len(), 1);
    let block = &out[0];
    let lines: Vec<&str> = block.split('\n').collect();
    let cell_rows: Vec<&&str> = lines.iter().filter(|l| l.starts_with('│')).collect();
    assert_eq!(cell_rows.len(), 3, "header row plus exactly two data rows");
    assert!(cell_rows[0].contains("Name"));
    assert!(cell_rows[0].contains("Octal"));
    assert!(!block.contains(".cfg"));
    let a_row = lines.iter().find(|l| l.contains("a.txt")).expect("a.txt row");
    assert!(a_row.contains(" 640 "));
    assert!(a_row.contains(" 10B "));
    let sub_row = lines.iter().find(|l| l.contains("sub")).expect("sub row");
    assert!(sub_row.contains("Directory"));
}

#[test]
fn empty_surviving_set_prints_no_table() {
    colored::control::set_override(false);
    let entries = vec![RawEntry { name: String::from(".hidden"), meta: meta(0o600, 1, false) }];
    let out = list_directory(Listing::Flat(entries), &cfg(true, false, false), "/root");
    assert_eq!(out.len(), 0);
}

#[test]
fn table_degrades_entries_without_metadata() {
    colored::control::set_override(false);
    let entries = vec![
        RawEntry { name: String::from("ok"), meta: meta(0o644, 5, false) },
        RawEntry { name: String::from("broken"), meta: None },
    ];
    let out = list_directory(Listing::Flat(entries), &cfg(true, false, false), "/root");
    assert_eq!(out.len(), 1);
    let lines: Vec<&str> = out[0].split('\n').collect();
    let broken_row = lines.iter().find(|l| l.contains("broken")).expect("degraded row");
    assert!(broken_row.contains(" File "));
    assert!(broken_row.contains(" None "));
    assert!(broken_row.contains(" 000 "));
    assert!(broken_row.contains(" unknown/unknown "));
    assert!(broken_row.contains(" 0B "));
    assert!(broken_row.contains(" Unknown "));
    assert!(out[0].contains("ok"));
}

#[test]
fn join_path_adds_separator_once() {
    assert_eq!(join_path("/a", "b"), "/a/b");
    assert_eq!(join_path("/a/", "b"), "/a/b");
    assert_eq!(join_path("", "b"), "/b");
}

#[test]
fn link_wraps_text_in_osc_eight() {
    assert_eq!(
        make_clickable_link("/tmp/x", "shown"),
        "\x1b]8;;file:///tmp/x\x1b\\shown\x1b]8;;\x1b\\"
    );
}

#[test]
fn link_percent_encodes_all_but_slash_and_colon() {
    assert_eq!(
        make_clickable_link("/tmp/a b", "t"),
        "\x1b]8;;file:///tmp/a%20b\x1b\\t\x1b]8;;\x1b\\"
    );
    assert_eq!(
        make_clickable_link("/d:1/x_y", "t"),
        "\x1b]8;;file:///d:1/x%5Fy\x1b\\t\x1b]8;;\x1b\\"
    );
    // a two-byte character is encoded byte by byte
    assert_eq!(
        make_clickable_link("/é", "t"),
        "\x1b]8;;file:///%C3%A9\x1b\\t\x1b]8;;\x1b\\"
    );
}

#[test]
fn interactive_flat_line_is_a_link() {
    colored::control::set_override(false);
    let entries = vec![RawEntry { name: String::from("f.txt"), meta: meta(0o644, 1, false) }];
    let out = list_directory(Listing::Flat(entries), &cfg(false, false, true), "/root");
    assert_eq!(out.len(), 1);
    assert_eq!(out[0], "\x1b]8;;file:///root/f%2Etxt\x1b\\f.txt\x1b]8;;\x1b\\");
}
