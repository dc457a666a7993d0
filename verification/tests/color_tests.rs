//! Decoration behavior with colors forced on: styles appear, and the
//! table decoration pass keeps the visible grid intact.

use fls::colors::{get_colored_name, get_colored_size};
use fls::config::Config;
use fls::display::{list_directory, Listing, RawEntry};
use fls::file_info::EntryMeta;

fn cfg(long_format: bool) -> Config {
    Config {
        path: String::from("/root"),
        long_format,
        show_hidden: false,
        interactive: false,
        tree: false,
        tree_depth: None,
    }
}

fn meta(mode: u32, size: u64, is_dir: bool) -> EntryMeta {
    EntryMeta {
        mode,
        size,
        is_dir,
        is_symlink: false,
        uid: 999999,
        gid: 999999,
        modified: None,
    }
}

fn entry(name: &str, m: EntryMeta) -> RawEntry {
    RawEntry { name: String::from(name), meta: Some(m) }
}

/// Drops every `ESC [ .. m` and `ESC ] .. ESC \` piece.
fn strip_escapes(s: &str) -> String {
    let chars: Vec<char> = s.chars().collect();
    let mut out = String::new();
    let mut i = 0;
    while i < chars.len() {
        if chars[i] == '\u{1b}' && i + 1 < chars.len() && chars[i + 1] == '[' {
            i += 2;
            while i < chars.len() && chars[i] != 'm' {
                i += 1;
            }
            i += 1;
        } else if chars[i] == '\u{1b}' && i + 1 < chars.len() && chars[i + 1] == ']' {
            i += 2;
            while i + 1 < chars.len() && !(chars[i] == '\u{1b}' && chars[i + 1] == '\\') {
                i += 1;
            }
            i += 2;
        } else {
            out.push(chars[i]);
            i += 1;
        }
    }
    out
}

#[test]
fn name_colors_follow_classification() {
    colored::control::set_override(true);
    assert_eq!(get_colored_name(".hide", &meta(0o644, 0, false)), "\u{1b}[90m.hide\u{1b}[0m");
    assert_eq!(get_colored_name("d", &meta(0o755, 0, true)), "\u{1b}[1;34md\u{1b}[0m");
    assert_eq!(get_colored_name("x", &meta(0o755, 0, false)), "\u{1b}[1;32mx\u{1b}[0m");
    assert_eq!(get_colored_name("plain", &meta(0o644, 0, false)), "plain");
}

#[test]
fn hidden_takes_precedence_over_directory() {
    colored::control::set_override(true);
    assert_eq!(get_colored_name(".d", &meta(0o755, 0, true)), "\u{1b}[90m.d\u{1b}[0m");
}

#[test]
fn size_color_bands_round_up_at_boundaries() {
    colored::control::set_override(true);
    assert_eq!(get_colored_size("1B", 1), "\u{1b}[32m1B\u{1b}[0m");
    assert_eq!(get_colored_size("s", 1048575), "\u{1b}[32ms\u{1b}[0m");
    assert_eq!(get_colored_size("s", 1048576), "\u{1b}[33ms\u{1b}[0m");
    assert_eq!(get_colored_size("s", 104857599), "\u{1b}[33ms\u{1b}[0m");
    assert_eq!(get_colored_size("s", 104857600), "\u{1b}[35ms\u{1b}[0m");
    assert_eq!(get_colored_size("s", 1073741823), "\u{1b}[35ms\u{1b}[0m");
    assert_eq!(get_colored_size("s", 1073741824), "\u{1b}[1;31ms\u{1b}[0m");
}

#[test]
fn flat_listing_styles_directory_not_plain_file() {
    colored::control::set_override(true);
    let entries = vec![
        entry("a.txt", meta(0o640, 10, false)),
        entry("sub", meta(0o755, 4096, true)),
        entry(".cfg", meta(0o600, 1, false)),
    ];
    let out = list_directory(Listing::Flat(entries), &cfg(false), "/root");
    assert_eq!(out.len(), 2);
    assert_eq!(out[0], "a.txt");
    assert_eq!(out[1], "\u{1b}[1;34msub\u{1b}[0m");
}

#[test]
fn decorated_grid_strips_back_to_plain_grid() {
    colored::control::set_override(true);
    let entries = vec![
        entry("a.txt", meta(0o640, 10, false)),
        entry("sub", meta(0o755, 4096, true)),
        entry("big", meta(0o644, 2147483648, false)),
    ];
    let copy: Vec<RawEntry> = entries.iter().map(|e| e.duplicate()).collect();
    let decorated = list_directory(Listing::Flat(copy), &cfg(true), "/root");
    colored::control::set_override(false);
    let plain = list_directory(Listing::Flat(entries), &cfg(true), "/root");
    assert_eq!(decorated.len(), 1);
    assert_eq!(plain.len(), 1);
    assert_ne!(decorated[0], plain[0], "decoration must add escape pieces");
    assert_eq!(strip_escapes(&decorated[0]), plain[0]);
}

#[test]
fn prefix_name_does_not_corrupt_longer_cell() {
    colored::control::set_override(true);
    // "a" is executable (styled green), "ab" is a directory (styled blue):
    // the substitution for "a" must not reach into the "ab" cell.
    let entries = vec![
        entry("a", meta(0o755, 1, false)),
        entry("ab", meta(0o755, 2, true)),
    ];
    let out = list_directory(Listing::Flat(entries), &cfg(true), "/root");
    assert_eq!(out.len(), 1);
    let block = &out[0];
    let green_a = "\u{1b}[1;32ma\u{1b}[0m";
    let blue_ab = "\u{1b}[1;34mab\u{1b}[0m";
    assert_eq!(block.matches(green_a).count(), 1);
    assert_eq!(block.matches(blue_ab).count(), 1);
    let ab_line = block.split('\n').find(|l| l.contains(blue_ab)).expect("ab row");
    assert!(!ab_line.contains(green_a), "the ab cell must stay untouched");
}

#[test]
fn tree_root_is_styled() {
    colored::control::set_override(true);
    let nodes: Vec<fls::display::tree::TreeNode> = Vec::new();
    let tree_cfg = Config {
        path: String::from("here"),
        long_format: false,
        show_hidden: false,
        interactive: false,
        tree: true,
        tree_depth: None,
    };
    let out = fls::display::tree::display(nodes, &tree_cfg, "/abs");
    assert_eq!(out, vec![String::from("\u{1b}[1;94mhere\u{1b}[0m")]);
}
