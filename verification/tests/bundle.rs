use dirbundle::combine_output;
use dirbundle::dump::{content_section, FileEntry};
use dirbundle::filter::{build_ignore_list, parse_ignore_list, should_ignore, str_contains};
use dirbundle::paths::{file_name, relative_path, str_le};
use dirbundle::tree::{render_tree, FsTree};

fn file(path: &str) -> FsTree {
    FsTree { path: path.to_string(), is_dir: false, children: Vec::new() }
}

fn dir(path: &str, children: Vec<FsTree>) -> FsTree {
    FsTree { path: path.to_string(), is_dir: true, children }
}

fn ignore(patterns: &[&str]) -> Option<Vec<String>> {
    Some(patterns.iter().map(|p| p.to_string()).collect())
}

fn entry(rel_path: &str, contents: &str) -> FileEntry {
    FileEntry { rel_path: rel_path.to_string(), contents: contents.to_string() }
}

#[test]
fn should_ignore_without_list_keeps_everything() {
    assert!(!should_ignore("proj/target/deep/file.rs", &None));
    assert!(!should_ignore("", &None));
}

#[test]
fn should_ignore_empty_pattern_list_keeps_everything() {
    assert!(!should_ignore("proj/a.txt", &ignore(&[])));
}

#[test]
fn should_ignore_matches_substring_anywhere() {
    let list = ignore(&["target", ".git"]);
    assert!(should_ignore("proj/target/debug/app", &list));
    assert!(should_ignore("proj/.git/config", &list));
    assert!(should_ignore("my_target_notes.txt", &list));
    assert!(!should_ignore("proj/src/main.rs", &list));
}

#[test]
fn should_ignore_excludes_descendants_of_matching_parent() {
    let list = ignore(&["sub"]);
    assert!(should_ignore("proj/sub", &list));
    assert!(should_ignore("proj/sub/b.txt", &list));
    assert!(!should_ignore("proj/a.txt", &list));
}

#[test]
fn should_ignore_is_case_sensitive() {
    let list = ignore(&["Sub"]);
    assert!(!should_ignore("proj/sub/b.txt", &list));
    assert!(should_ignore("proj/Sub/b.txt", &list));
}

#[test]
fn str_contains_basic() {
    assert!(str_contains("abcdef", "cde"));
    assert!(str_contains("abcdef", ""));
    assert!(str_contains("", ""));
    assert!(!str_contains("abc", "abcd"));
    assert!(!str_contains("abcdef", "ce"));
}

#[test]
fn parse_ignore_list_splits_on_commas() {
    assert_eq!(parse_ignore_list("a,b"), vec!["a".to_string(), "b".to_string()]);
    assert_eq!(parse_ignore_list("target"), vec!["target".to_string()]);
    assert_eq!(
        parse_ignore_list("a,,b"),
        vec!["a".to_string(), "".to_string(), "b".to_string()]
    );
    assert_eq!(parse_ignore_list("a,"), vec!["a".to_string(), "".to_string()]);
    assert_eq!(parse_ignore_list(""), vec!["".to_string()]);
}

#[test]
fn build_ignore_list_absent_means_no_filtering() {
    assert_eq!(build_ignore_list(&None), None);
    assert_eq!(
        build_ignore_list(&Some("a,b".to_string())),
        Some(vec!["a".to_string(), "b".to_string()])
    );
}

#[test]
fn file_name_takes_final_component() {
    assert_eq!(file_name("proj/sub/b.txt"), "b.txt");
    assert_eq!(file_name("proj"), "proj");
    assert_eq!(file_name(""), "");
}

#[test]
fn file_name_falls_back_to_full_path() {
    assert_eq!(file_name("proj/"), "proj/");
}

#[test]
fn relative_path_strips_root() {
    assert_eq!(relative_path("proj/sub/b.txt", "proj"), "sub/b.txt");
    assert_eq!(relative_path("proj/a.txt", "proj/"), "a.txt");
    assert_eq!(relative_path("proj", "proj"), "");
}

#[test]
fn relative_path_falls_back_outside_root() {
    assert_eq!(relative_path("other/x.txt", "proj"), "other/x.txt");
    assert_eq!(relative_path("projx/a.txt", "proj"), "projx/a.txt");
}

#[test]
fn str_le_orders_lexicographically() {
    assert!(str_le("a", "b"));
    assert!(str_le("a", "a"));
    assert!(str_le("a", "ab"));
    assert!(!str_le("ab", "a"));
    assert!(!str_le("b", "ab"));
}

#[test]
fn render_tree_single_file() {
    let mut out = String::new();
    render_tree(file("a.txt"), "", true, &None, &mut out);
    assert_eq!(out, "└── a.txt\n");
}

#[test]
fn render_tree_markers_and_prefixes() {
    // A non-last directory keeps a continuation bar in front of its
    // descendants; the last sibling gets the corner marker.
    let tree = dir(
        "proj",
        vec![dir("proj/sub", vec![file("proj/sub/x")]), file("proj/z")],
    );
    let mut out = String::new();
    render_tree(tree, "", true, &None, &mut out);
    assert_eq!(out, "└── proj\n    ├── sub\n    │   └── x\n    └── z\n");
}

#[test]
fn render_tree_sorts_siblings_by_path() {
    let tree = dir(
        "proj",
        vec![file("proj/c"), file("proj/a"), file("proj/b")],
    );
    let mut out = String::new();
    render_tree(tree, "", true, &None, &mut out);
    assert_eq!(out, "└── proj\n    ├── a\n    ├── b\n    └── c\n");
}

#[test]
fn render_tree_skips_ignored_root() {
    let mut out = String::new();
    render_tree(file("proj/skip.txt"), "", true, &ignore(&["skip"]), &mut out);
    assert_eq!(out, "");
}

#[test]
fn render_tree_rerun_is_identical() {
    let make = || dir("proj", vec![file("proj/b"), dir("proj/a", vec![])]);
    let mut first = String::new();
    render_tree(make(), "", true, &None, &mut first);
    let mut second = String::new();
    render_tree(make(), "", true, &None, &mut second);
    assert_eq!(first, second);
}

#[test]
fn content_section_one_block_per_file() {
    let files = vec![entry("a.txt", "hi"), entry("sub/b.txt", "bye")];
    let out = content_section(&files);
    assert_eq!(out, "=== a.txt ===\n\nhi\n\n=== sub/b.txt ===\n\nbye\n\n");
}

#[test]
fn content_section_empty() {
    let files: Vec<FileEntry> = Vec::new();
    assert_eq!(content_section(&files), "");
}

#[test]
fn combine_output_two_files() {
    let tree = dir("proj", vec![file("proj/a.txt"), dir("proj/sub", vec![file("proj/sub/b.txt")])]);
    let files = vec![entry("a.txt", "hi"), entry("sub/b.txt", "bye")];
    let out = combine_output(tree, &files, &None);
    let expected = "Directory Structure:\n\n\
                    └── proj\n    ├── a.txt\n    └── sub\n        └── b.txt\n\
                    \nFile Contents:\n\n\
                    === a.txt ===\n\nhi\n\n=== sub/b.txt ===\n\nbye\n\n";
    assert_eq!(out, expected);
}

#[test]
fn combine_output_with_ignore_pattern() {
    // Same tree with pattern "sub": the subdirectory and its file are
    // absent from both sections.
    let tree = dir("proj", vec![file("proj/a.txt"), dir("proj/sub", vec![file("proj/sub/b.txt")])]);
    let ignore_list = ignore(&["sub"]);
    let mut files = Vec::new();
    for (path, rel, text) in [
        ("proj/a.txt", "a.txt", "hi"),
        ("proj/sub/b.txt", "sub/b.txt", "bye"),
    ] {
        if !should_ignore(path, &ignore_list) {
            files.push(entry(rel, text));
        }
    }
    let out = combine_output(tree, &files, &ignore_list);
    let expected = "Directory Structure:\n\n\
                    └── proj\n    └── a.txt\n\
                    \nFile Contents:\n\n\
                    === a.txt ===\n\nhi\n\n";
    assert_eq!(out, expected);
    assert!(!out.contains("sub"));
    assert!(!out.contains("bye"));
}

#[test]
fn combine_output_ignored_root_keeps_headers() {
    let out = combine_output(file("proj/x"), &Vec::new(), &ignore(&["x"]));
    assert_eq!(out, "Directory Structure:\n\n\nFile Contents:\n\n");
}

#[test]
fn multibyte_characters_are_handled_per_character() {
    assert!(should_ignore("proj/résumé.txt", &ignore(&["ésu"])));
    assert!(!should_ignore("proj/resume.txt", &ignore(&["é"])));
    assert_eq!(file_name("proj/déjà"), "déjà");
    let tree = dir("proj", vec![file("proj/ä"), file("proj/z")]);
    let mut out = String::new();
    render_tree(tree, "", true, &None, &mut out);
    // 'z' (U+007A) sorts before 'ä' (U+00E4) by code point.
    assert_eq!(out, "└── proj\n    ├── z\n    └── ä\n");
}

#[test]
fn filter_agrees_between_sections() {
    // A path the filter excludes appears in neither section; one it
    // keeps appears in both.
    let tree = dir("proj", vec![file("proj/keep.txt"), file("proj/drop.txt")]);
    let ignore_list = ignore(&["drop"]);
    let mut files = Vec::new();
    for (path, rel, text) in [
        ("proj/keep.txt", "keep.txt", "k"),
        ("proj/drop.txt", "drop.txt", "d"),
    ] {
        if !should_ignore(path, &ignore_list) {
            files.push(entry(rel, text));
        }
    }
    let out = combine_output(tree, &files, &ignore_list);
    assert!(out.contains("└── keep.txt"));
    assert!(out.contains("=== keep.txt ==="));
    assert!(!out.contains("drop.txt"));
}
