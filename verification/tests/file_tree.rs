use node_graph::ui::file_tree::{is_listed, order_entries, stable_sort_by_keys, FileEntry};
use std::path::PathBuf;

fn entry(name: &str, is_dir: bool) -> FileEntry {
    FileEntry {
        name: name.to_string(),
        path: PathBuf::from(name),
        is_dir,
        children: Vec::new(),
    }
}

#[test]
fn hidden_and_target_are_not_listed() {
    assert!(!is_listed(".git"));
    assert!(!is_listed("."));
    assert!(!is_listed("target"));
    assert!(is_listed("Target"));
    assert!(is_listed("targets"));
    assert!(is_listed("src"));
    assert!(is_listed("a.b"));
    assert!(is_listed(""));
}

#[test]
fn directories_come_first_each_sorted_case_insensitively() {
    let entries = vec![
        entry("zeta.rs", false),
        entry("src", true),
        entry("Beta.md", false),
        entry("assets", true),
        entry("alpha.txt", false),
        entry("Docs", true),
    ];
    let names: Vec<(String, bool)> = order_entries(entries)
        .into_iter()
        .map(|e| (e.name, e.is_dir))
        .collect();
    let expect: Vec<(String, bool)> = vec![
        ("assets".to_string(), true),
        ("Docs".to_string(), true),
        ("src".to_string(), true),
        ("alpha.txt".to_string(), false),
        ("Beta.md".to_string(), false),
        ("zeta.rs".to_string(), false),
    ];
    assert_eq!(names, expect);
}

#[test]
fn equal_lowercase_names_keep_their_order() {
    let entries = vec![entry("b", false), entry("README", false), entry("a", false), entry("readme", false)];
    let names: Vec<String> = order_entries(entries).into_iter().map(|e| e.name).collect();
    assert_eq!(names, vec!["a", "b", "README", "readme"]);
    let entries = vec![entry("readme", false), entry("README", false)];
    let names: Vec<String> = order_entries(entries).into_iter().map(|e| e.name).collect();
    assert_eq!(names, vec!["readme", "README"]);
}

#[test]
fn stable_sort_by_keys_orders_by_code_point() {
    let items = vec![10, 20, 30, 40, 50];
    let keys: Vec<Vec<char>> = vec![
        "b".chars().collect(),
        "ab".chars().collect(),
        "a".chars().collect(),
        "ab".chars().collect(),
        "".chars().collect(),
    ];
    assert_eq!(stable_sort_by_keys(items, &keys), vec![50, 30, 20, 40, 10]);
    let empty: Vec<u8> = Vec::new();
    assert_eq!(stable_sort_by_keys(empty, &Vec::new()), Vec::<u8>::new());
}

#[test]
fn clone_copies_the_whole_tree() {
    let mut root = entry("root", true);
    let mut sub = entry("sub", true);
    sub.children.push(entry("leaf.rs", false));
    root.children.push(sub);
    root.children.push(entry("main.rs", false));
    let copy = root.clone();
    assert_eq!(copy.name, "root");
    assert_eq!(copy.path, PathBuf::from("root"));
    assert!(copy.is_dir);
    assert_eq!(copy.children.len(), 2);
    assert_eq!(copy.children[0].name, "sub");
    assert_eq!(copy.children[0].children.len(), 1);
    assert_eq!(copy.children[0].children[0].name, "leaf.rs");
    assert!(!copy.children[0].children[0].is_dir);
    assert_eq!(copy.children[1].path, PathBuf::from("main.rs"));
}
