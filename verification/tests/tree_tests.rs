use ent_tree::cli::{Cli, TreeError};
use ent_tree::fs::{is_hidden, FsNode, TreeEntry};
use ent_tree::render::{child_prefix, connector};

fn file(name: &str) -> FsNode {
    FsNode::File { name: name.to_string(), ignored: false }
}

fn ignored_file(name: &str) -> FsNode {
    FsNode::File { name: name.to_string(), ignored: true }
}

fn dir(name: &str, entries: Vec<FsNode>) -> FsNode {
    FsNode::Dir { name: name.to_string(), ignored: false, entries }
}

fn children(t: &TreeEntry) -> &Vec<TreeEntry> {
    t.children.as_ref().expect("directory entry must carry children")
}

fn assert_same_tree(a: &TreeEntry, b: &TreeEntry) {
    assert_eq!(a.name, b.name);
    assert_eq!(a.is_dir, b.is_dir);
    match (&a.children, &b.children) {
        (None, None) => {}
        (Some(ca), Some(cb)) => {
            assert_eq!(ca.len(), cb.len());
            for (x, y) in ca.iter().zip(cb.iter()) {
                assert_same_tree(x, y);
            }
        }
        _ => panic!("children presence differs"),
    }
}

#[test]
fn test_new_file() {
    let file = TreeEntry::new_file("test.txt".to_string());
    assert_eq!(file.name, "test.txt");
    assert!(!file.is_dir);
    assert!(file.children.is_none());
}

#[test]
fn test_new_dir() {
    let dir = TreeEntry::new_dir("src".to_string());
    assert_eq!(dir.name, "src");
    assert!(dir.is_dir);
    assert!(dir.children.is_some());
}

#[test]
fn test_is_hidden() {
    assert!(is_hidden(".hidden"));
    assert!(!is_hidden("visible"));
}

#[test]
fn test_new_sets_fields() {
    let e = TreeEntry::new("x".to_string(), true);
    assert_eq!(e.name, "x");
    assert!(e.is_dir);
    assert!(e.children.is_none());
}

#[test]
fn test_build_simple_tree() {
    let root = dir("root", vec![file("file.txt"), dir("subdir", vec![file("nested.txt")])]);
    let cli = Cli::default();
    let tree = TreeEntry::build(&cli, &Some(root)).unwrap();
    assert_eq!(tree.is_dir, true);
    assert!(children(&tree).iter().any(|e| e.name == "file.txt"));
    assert!(children(&tree).iter().any(|e| e.name == "subdir"));
    let f = children(&tree).iter().find(|e| e.name == "file.txt").unwrap();
    assert!(!f.is_dir);
    assert!(f.children.is_none());
    let sub = children(&tree).iter().find(|e| e.name == "subdir").unwrap();
    assert!(sub.is_dir);
    assert!(children(sub).iter().any(|e| e.name == "nested.txt"));
}

#[test]
fn build_missing_path_fails() {
    let cli = Cli::default();
    let r = TreeEntry::build(&cli, &None);
    assert_eq!(r.unwrap_err(), TreeError::PathNotFound);
}

#[test]
fn build_root_is_always_a_directory() {
    let cli = Cli::default();
    let t = TreeEntry::build(&cli, &Some(file("plain"))).unwrap();
    assert_eq!(t.name, "plain");
    assert!(t.is_dir);
    assert_eq!(children(&t).len(), 0);
}

#[test]
fn hidden_entries_filtered_by_default() {
    let cli = Cli::default();
    let t = TreeEntry::build(&cli, &Some(dir("root", vec![file(".secret"), file("visible.txt")])))
        .unwrap();
    assert_eq!(children(&t).len(), 1);
    assert_eq!(children(&t)[0].name, "visible.txt");
}

#[test]
fn hidden_entries_filtered_at_every_level() {
    let cli = Cli::default();
    let snap = dir(
        "root",
        vec![
            dir(".hdir", vec![file("inside.txt")]),
            dir("sub", vec![file(".deep"), file("keep.txt")]),
        ],
    );
    let t = TreeEntry::build(&cli, &Some(snap)).unwrap();
    assert_eq!(children(&t).len(), 1);
    let sub = &children(&t)[0];
    assert_eq!(sub.name, "sub");
    assert_eq!(children(sub).len(), 1);
    assert_eq!(children(sub)[0].name, "keep.txt");
}

#[test]
fn all_shows_nested_hidden_contents() {
    let cli = Cli { all: true, ..Cli::default() };
    let snap = dir("root", vec![dir(".hdir", vec![file("inside.txt")])]);
    let t = TreeEntry::build(&cli, &Some(snap)).unwrap();
    assert_eq!(children(&t).len(), 1);
    let h = &children(&t)[0];
    assert_eq!(h.name, ".hdir");
    assert_eq!(children(h).len(), 1);
    assert_eq!(children(h)[0].name, "inside.txt");
}

#[test]
fn hidden_entries_shown_with_hidden_flag() {
    let cli = Cli { hidden: true, ..Cli::default() };
    let t = TreeEntry::build(&cli, &Some(dir("root", vec![file(".secret"), file("visible.txt")])))
        .unwrap();
    assert_eq!(children(&t).len(), 2);
    assert!(children(&t).iter().any(|e| e.name == ".secret"));
    assert!(children(&t).iter().any(|e| e.name == "visible.txt"));
}

#[test]
fn all_shows_hidden_and_ignored() {
    let cli = Cli { all: true, ..Cli::default() };
    let snap = dir("root", vec![file(".secret"), ignored_file("target"), file("keep.txt")]);
    let t = TreeEntry::build(&cli, &Some(snap)).unwrap();
    assert_eq!(children(&t).len(), 3);
}

#[test]
fn ignored_entries_filtered_by_default() {
    let cli = Cli::default();
    let snap = dir("root", vec![ignored_file("target"), file("keep.txt")]);
    let t = TreeEntry::build(&cli, &Some(snap)).unwrap();
    assert_eq!(children(&t).len(), 1);
    assert_eq!(children(&t)[0].name, "keep.txt");
}

#[test]
fn ignored_entries_shown_with_ignored_flag() {
    let cli = Cli { ignored: true, ..Cli::default() };
    let snap = dir("root", vec![ignored_file("target"), file("keep.txt")]);
    let t = TreeEntry::build(&cli, &Some(snap)).unwrap();
    assert_eq!(children(&t).len(), 2);
}

#[test]
fn depth_one_keeps_subdir_with_empty_children() {
    let cli = Cli { depth: Some(1), ..Cli::default() };
    let snap = dir("root", vec![dir("subdir", vec![file("deep.txt"), dir("deeper", vec![])])]);
    let t = TreeEntry::build(&cli, &Some(snap)).unwrap();
    assert_eq!(children(&t).len(), 1);
    let sub = &children(&t)[0];
    assert_eq!(sub.name, "subdir");
    assert!(sub.is_dir);
    assert_eq!(children(sub).len(), 0);
}

#[test]
fn depth_two_descends_one_level_further() {
    let cli = Cli { depth: Some(2), ..Cli::default() };
    let snap = dir(
        "root",
        vec![dir("a", vec![dir("b", vec![file("c.txt")])])],
    );
    let t = TreeEntry::build(&cli, &Some(snap)).unwrap();
    let a = &children(&t)[0];
    assert_eq!(children(a).len(), 1);
    let b = &children(a)[0];
    assert_eq!(b.name, "b");
    assert_eq!(children(b).len(), 0);
}

#[test]
fn dirs_only_removes_files_at_every_level() {
    let cli = Cli { dirs_only: true, ..Cli::default() };
    let snap = dir(
        "root",
        vec![file("a.txt"), dir("d1", vec![file("b.txt"), dir("d2", vec![file("c.txt")])])],
    );
    let t = TreeEntry::build(&cli, &Some(snap)).unwrap();
    assert_eq!(children(&t).len(), 1);
    let d1 = &children(&t)[0];
    assert_eq!(d1.name, "d1");
    assert_eq!(children(d1).len(), 1);
    let d2 = &children(d1)[0];
    assert_eq!(d2.name, "d2");
    assert_eq!(children(d2).len(), 0);
}

#[test]
fn files_only_removes_directories_at_every_level() {
    let cli = Cli { files_only: true, ..Cli::default() };
    let snap = dir(
        "root",
        vec![file("a.txt"), dir("d1", vec![file("b.txt")])],
    );
    let t = TreeEntry::build(&cli, &Some(snap)).unwrap();
    assert_eq!(children(&t).len(), 1);
    assert_eq!(children(&t)[0].name, "a.txt");
}

#[test]
fn validate_accepts_default() {
    assert!(Cli::default().validate().is_ok());
}

#[test]
fn validate_rejects_zero_depth() {
    let cli = Cli { depth: Some(0), ..Cli::default() };
    assert_eq!(cli.validate().unwrap_err(), TreeError::InvalidConfig);
}

#[test]
fn validate_rejects_conflicting_type_filters() {
    let cli = Cli { dirs_only: true, files_only: true, ..Cli::default() };
    assert_eq!(cli.validate().unwrap_err(), TreeError::InvalidConfig);
}

#[test]
fn validate_rejects_all_with_type_filter() {
    let cli = Cli { all: true, dirs_only: true, ..Cli::default() };
    assert_eq!(cli.validate().unwrap_err(), TreeError::InvalidConfig);
}

#[test]
fn test_export_json() {
    let tree = TreeEntry::new_dir("project".to_string());
    let contents = tree.to_json();
    assert!(contents.contains("\"name\": \"project\""));
}

#[test]
fn export_file_document_exact() {
    let t = TreeEntry::new_file("a".to_string());
    assert_eq!(t.to_json(), "{\"name\": \"a\", \"isDirectory\": false}");
}

#[test]
fn export_dir_document_exact() {
    let t = TreeEntry::new_dir("d".to_string());
    assert_eq!(t.to_json(), "{\"name\": \"d\", \"isDirectory\": true, \"children\": []}");
}

#[test]
fn export_escapes_quotes_and_backslashes() {
    let t = TreeEntry::new_file("a\"b\\".to_string());
    assert_eq!(t.to_json(), "{\"name\": \"a\\\"b\\\\\", \"isDirectory\": false}");
}

#[test]
fn export_nested_document_exact() {
    let cli = Cli::default();
    let snap = dir("root", vec![file("f.txt"), dir("sub", vec![])]);
    let t = TreeEntry::build(&cli, &Some(snap)).unwrap();
    assert_eq!(
        t.to_json(),
        "{\"name\": \"root\", \"isDirectory\": true, \"children\": [\
         {\"name\": \"f.txt\", \"isDirectory\": false}, \
         {\"name\": \"sub\", \"isDirectory\": true, \"children\": []}]}"
    );
}

#[test]
fn export_roundtrip_reconstructs_tree() {
    let cli = Cli { hidden: true, ..Cli::default() };
    let snap = dir(
        "we\"ird\\root",
        vec![
            file(".dot\"file"),
            dir("sub", vec![file("nested.txt"), dir("empty", vec![])]),
            file("plain.txt"),
        ],
    );
    let t = TreeEntry::build(&cli, &Some(snap)).unwrap();
    let doc = t.to_json();
    let back = TreeEntry::from_json(doc.as_str()).expect("reimport must succeed");
    assert_same_tree(&t, &back);
}

#[test]
fn import_rejects_malformed_documents() {
    assert!(TreeEntry::from_json("").is_none());
    assert!(TreeEntry::from_json("{\"name\": \"a\"}").is_none());
    assert!(TreeEntry::from_json("{\"name\": \"a\", \"isDirectory\": false} trailing").is_none());
}

#[test]
fn connector_and_prefix_decisions() {
    assert_eq!(connector(true), "└── ");
    assert_eq!(connector(false), "├── ");
    assert_eq!(child_prefix("", true), "    ");
    assert_eq!(child_prefix("│   ", false), "│   │   ");
}
