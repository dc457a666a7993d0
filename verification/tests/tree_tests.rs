//! Tree renderer behavior with colors forced off.

use fls::config::Config;
use fls::display::tree::{display, TreeNode};
use fls::file_info::EntryMeta;

fn cfg(show_hidden: bool, tree_depth: Option<usize>) -> Config {
    Config {
        path: String::from("root"),
        long_format: false,
        show_hidden,
        interactive: false,
        tree: true,
        tree_depth,
    }
}

fn dir_meta() -> Option<EntryMeta> {
    Some(EntryMeta {
        mode: 0o755,
        size: 4096,
        is_dir: true,
        is_symlink: false,
        uid: 999999,
        gid: 999999,
        modified: None,
    })
}

fn file_meta() -> Option<EntryMeta> {
    Some(EntryMeta {
        mode: 0o644,
        size: 1,
        is_dir: false,
        is_symlink: false,
        uid: 999999,
        gid: 999999,
        modified: None,
    })
}

fn file(name: &str) -> TreeNode {
    TreeNode { name: String::from(name), meta: file_meta(), children: None }
}

fn dir(name: &str, children: Vec<TreeNode>) -> TreeNode {
    TreeNode { name: String::from(name), meta: dir_meta(), children: Some(children) }
}

#[test]
fn root_label_comes_first() {
    colored::control::set_override(false);
    let out = display(vec![file("a")], &cfg(false, None), "/abs/root");
    assert_eq!(out, vec![String::from("root"), String::from("└── a")]);
}

#[test]
fn single_child_uses_terminal_connector_and_blank_prefix() {
    colored::control::set_override(false);
    let out = display(vec![dir("only", vec![file("inner")])], &cfg(false, None), "/abs");
    assert_eq!(
        out,
        vec![
            String::from("root"),
            String::from("└── only"),
            String::from("    └── inner"),
        ]
    );
}

#[test]
fn branch_children_use_branch_connector_and_bar_prefix() {
    colored::control::set_override(false);
    let out = display(
        vec![dir("d", vec![file("x")]), file("z")],
        &cfg(false, None),
        "/abs",
    );
    assert_eq!(
        out,
        vec![
            String::from("root"),
            String::from("├── d"),
            String::from("│   └── x"),
            String::from("└── z"),
        ]
    );
}

#[test]
fn children_are_sorted_and_hidden_filtered_per_level() {
    colored::control::set_override(false);
    let out = display(
        vec![file("b"), file(".h"), dir("a", vec![file("2"), file("1"), file(".s")])],
        &cfg(false, None),
        "/abs",
    );
    assert_eq!(
        out,
        vec![
            String::from("root"),
            String::from("├── a"),
            String::from("│   ├── 1"),
            String::from("│   └── 2"),
            String::from("└── b"),
        ]
    );
}

#[test]
fn depth_one_prints_children_but_no_descendants() {
    colored::control::set_override(false);
    let out = display(
        vec![dir("d", vec![file("hiddenbydepth")]), file("f")],
        &cfg(false, Some(1)),
        "/abs",
    );
    assert_eq!(
        out,
        vec![String::from("root"), String::from("├── d"), String::from("└── f")]
    );
}

#[test]
fn unreadable_directory_subtree_is_omitted() {
    colored::control::set_override(false);
    let unreadable = TreeNode { name: String::from("locked"), meta: dir_meta(), children: None };
    let out = display(vec![unreadable, file("ok")], &cfg(false, None), "/abs");
    assert_eq!(
        out,
        vec![String::from("root"), String::from("├── locked"), String::from("└── ok")]
    );
}

#[test]
fn unreadable_metadata_degrades_to_plain_name() {
    colored::control::set_override(false);
    let broken = TreeNode { name: String::from("ghost"), meta: None, children: None };
    let out = display(vec![broken], &cfg(false, None), "/abs");
    assert_eq!(out, vec![String::from("root"), String::from("└── ghost")]);
}

#[test]
fn hidden_children_shown_when_asked() {
    colored::control::set_override(false);
    let out = display(vec![file(".h"), file("a")], &cfg(true, None), "/abs");
    assert_eq!(
        out,
        vec![String::from("root"), String::from("├── .h"), String::from("└── a")]
    );
}
