//! The decoration pass as a plain text transformation: bounded keys only,
//! and the hard depth ceiling of the tree walk.

use fls::config::Config;
use fls::display::table::{apply_file_name_colors, apply_size_colors};
use fls::display::tree::{display, TreeNode};
use fls::file_info::EntryMeta;

#[test]
fn name_substitution_is_bounded_by_border_and_space() {
    let text = String::from("│ a │\n│ xa │");
    let out = apply_file_name_colors(text, vec![(String::from("a"), String::from("X"))]);
    assert_eq!(out, "│ X │\n│ xa │");
}

#[test]
fn name_substitution_needs_the_left_border() {
    let text = String::from("a table about a ");
    let out = apply_file_name_colors(text, vec![(String::from("a"), String::from("X"))]);
    assert_eq!(out, "a table about a ");
}

#[test]
fn size_substitution_is_bounded_by_spaces() {
    let text = String::from("│ 10B │ a10B x");
    let out = apply_size_colors(text, vec![(String::from("10B"), String::from("Y"))]);
    assert_eq!(out, "│ Y │ a10B x");
}

#[test]
fn substitutions_apply_in_pair_order() {
    let text = String::from("│ ab │");
    let out = apply_file_name_colors(
        text,
        vec![
            (String::from("ab"), String::from("c")),
            (String::from("c"), String::from("d")),
        ],
    );
    assert_eq!(out, "│ d │");
}

#[test]
fn tree_depth_is_capped_by_the_hard_ceiling() {
    colored::control::set_override(false);
    let dir_meta = Some(EntryMeta {
        mode: 0o755,
        size: 0,
        is_dir: true,
        is_symlink: false,
        uid: 999999,
        gid: 999999,
        modified: None,
    });
    // a chain of thirty nested directories
    let mut node = TreeNode { name: String::from("d"), meta: dir_meta, children: Some(Vec::new()) };
    for _ in 0..29 {
        node = TreeNode { name: String::from("d"), meta: dir_meta, children: Some(vec![node]) };
    }
    let cfg = Config {
        path: String::from("root"),
        long_format: false,
        show_hidden: false,
        interactive: false,
        tree: true,
        tree_depth: Some(50),
    };
    let out = display(vec![node], &cfg, "/abs");
    // one root label plus at most the ceiling of twenty levels
    assert_eq!(out.len(), 1 + 20);
}
