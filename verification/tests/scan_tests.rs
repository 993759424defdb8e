use file_extractor::scan::{
    scan_listing, should_ignore_dir, sort_nodes, validate_directory_path, FileNode, Listing,
    ScanEntry, ScanError,
};
use file_extractor::text::{is_hidden, is_within_root};

fn file_entry(name: &str, path: &str) -> ScanEntry {
    ScanEntry { name: name.to_string(), path: path.to_string(), is_dir: false, listing: None }
}

fn dir_entry(name: &str, path: &str, listing: Option<Listing>) -> ScanEntry {
    ScanEntry { name: name.to_string(), path: path.to_string(), is_dir: true, listing }
}

fn listing(canonical: &str, entries: Vec<ScanEntry>) -> Listing {
    Listing { canonical: Some(canonical.to_string()), entries }
}

fn names(nodes: &[FileNode]) -> Vec<String> {
    nodes.iter().map(|n| n.name.clone()).collect()
}

#[test]
fn ignore_list_matches_conventional_names() {
    assert!(should_ignore_dir("node_modules"));
    assert!(should_ignore_dir("target"));
    assert!(should_ignore_dir(".git"));
    assert!(should_ignore_dir("__pycache__"));
    assert!(!should_ignore_dir("src"));
    assert!(!should_ignore_dir("node_modulesx"));
    assert!(!should_ignore_dir(""));
}

#[test]
fn ignore_list_is_case_insensitive() {
    assert!(should_ignore_dir("NODE_MODULES"));
    assert!(should_ignore_dir("Target"));
    assert!(should_ignore_dir(".Git"));
    assert!(should_ignore_dir(".ds_store"));
    assert!(should_ignore_dir(".DS_Store"));
}

#[test]
fn hidden_names_start_with_a_period() {
    assert!(is_hidden(".git"));
    assert!(is_hidden("."));
    assert!(!is_hidden("git"));
    assert!(!is_hidden(""));
}

#[test]
fn validate_rejects_missing_path() {
    let r = validate_directory_path(false, false, None);
    assert_eq!(r, Err(ScanError::NotFound));
}

#[test]
fn validate_rejects_non_directory() {
    let r = validate_directory_path(true, false, Some("/a".to_string()));
    assert_eq!(r, Err(ScanError::NotADirectory));
}

#[test]
fn validate_rejects_unresolvable_path() {
    let r = validate_directory_path(true, true, None);
    assert_eq!(r, Err(ScanError::CanonicalizationFailed));
}

#[test]
fn validate_returns_canonical_path() {
    let r = validate_directory_path(true, true, Some("/a/b".to_string()));
    assert_eq!(r, Ok("/a/b".to_string()));
}

#[test]
fn within_root_requires_component_prefix() {
    assert!(is_within_root("/a/b", "/a"));
    assert!(is_within_root("/a", "/a"));
    assert!(is_within_root("/a/b/c", "/a/"));
    assert!(!is_within_root("/ab", "/a"));
    assert!(!is_within_root("/b/c", "/a"));
    assert!(is_within_root("C:\\r\\sub", "C:\\r"));
}

#[test]
fn scan_ignored_only_level_is_empty() {
    let l = listing(
        "/r",
        vec![dir_entry("node_modules", "/r/node_modules", Some(listing("/r/node_modules", vec![
            file_entry("x.js", "/r/node_modules/x.js"),
        ])))],
    );
    let nodes = scan_listing(&l, "/r", 0);
    assert!(nodes.is_empty());
}

#[test]
fn scan_skips_hidden_entries() {
    let l = listing(
        "/r",
        vec![
            file_entry(".secret", "/r/.secret"),
            dir_entry(".git", "/r/.git", None),
            file_entry("kept.txt", "/r/kept.txt"),
        ],
    );
    let nodes = scan_listing(&l, "/r", 0);
    assert_eq!(names(&nodes), vec!["kept.txt"]);
}

#[test]
fn scan_refuses_unresolved_listing() {
    let l = Listing { canonical: None, entries: vec![file_entry("a.txt", "/r/a.txt")] };
    let nodes = scan_listing(&l, "/r", 0);
    assert!(nodes.is_empty());
}

#[test]
fn scan_refuses_listing_outside_root() {
    let l = listing("/elsewhere", vec![file_entry("a.txt", "/elsewhere/a.txt")]);
    let nodes = scan_listing(&l, "/r", 0);
    assert!(nodes.is_empty());
}

#[test]
fn scan_prunes_escaping_subdirectory() {
    let sub = listing("/outside", vec![file_entry("leak.txt", "/outside/leak.txt")]);
    let l = listing("/r", vec![dir_entry("link", "/r/link", Some(sub))]);
    let nodes = scan_listing(&l, "/r", 0);
    assert_eq!(nodes.len(), 1);
    assert_eq!(nodes[0].name, "link");
    assert!(nodes[0].children.is_none());
}

#[test]
fn scan_depth_is_bounded() {
    // A chain of nested directories deeper than the bound: levels survive up
    // to the cutoff, where the directory keeps no children, and nothing errs.
    let mut inner: Option<Listing> = None;
    for d in (1..=8).rev() {
        let path = format!("/r/{}", "d/".repeat(d - 1));
        let entries = match inner.take() {
            None => vec![file_entry("deep.txt", &format!("{}deep.txt", path))],
            Some(l) => vec![dir_entry("d", &format!("{}d", path), Some(l))],
        };
        inner = Some(listing(path.trim_end_matches('/'), entries));
    }
    let top = inner.unwrap();
    let nodes = scan_listing(&top, "/r", 0);
    let mut depth = 0;
    let mut cur = &nodes;
    loop {
        assert_eq!(cur.len(), 1);
        match &cur[0].children {
            Some(c) => {
                depth += 1;
                cur = c;
            }
            None => break,
        }
    }
    // Nodes exist at depths 1 through 6 below the root; the node at the
    // cutoff depth has no children even though the chain goes deeper on disk.
    assert_eq!(depth, 5);
    assert_eq!(cur[0].name, "d");
}

#[test]
fn scan_orders_directories_first_then_names_folded() {
    let l = listing(
        "/r",
        vec![
            file_entry("b.txt", "/r/b.txt"),
            dir_entry("A", "/r/A", None),
            file_entry("a.txt", "/r/a.txt"),
            dir_entry("B", "/r/B", None),
        ],
    );
    let nodes = scan_listing(&l, "/r", 0);
    assert_eq!(names(&nodes), vec!["A", "B", "a.txt", "b.txt"]);
}

#[test]
fn sort_nodes_orders_mixed_case_names() {
    let mk = |name: &str, is_dir: bool| FileNode {
        name: name.to_string(),
        path: format!("/r/{}", name),
        is_dir,
        children: None,
    };
    let v = vec![mk("zeta.txt", false), mk("Alpha", true), mk("beta", true), mk("Gamma.txt", false)];
    let sorted = sort_nodes(v);
    assert_eq!(names(&sorted), vec!["Alpha", "beta", "Gamma.txt", "zeta.txt"]);
}

#[test]
fn scan_keeps_empty_directory_without_children() {
    let l = listing(
        "/r",
        vec![dir_entry("empty", "/r/empty", Some(listing("/r/empty", vec![])))],
    );
    let nodes = scan_listing(&l, "/r", 0);
    assert_eq!(nodes.len(), 1);
    assert!(nodes[0].is_dir);
    assert!(nodes[0].children.is_none());
}

#[test]
fn ignore_list_applies_to_directories_only() {
    // A plain file that happens to carry a deny-listed name is kept; only
    // directories are filtered by the list.
    let l = listing(
        "/r",
        vec![file_entry("target", "/r/target"), dir_entry("target", "/r/target2", None)],
    );
    let nodes = scan_listing(&l, "/r", 0);
    assert_eq!(names(&nodes), vec!["target"]);
    assert!(!nodes[0].is_dir);
}

#[test]
fn scan_builds_nested_children() {
    let sub = listing("/r/src", vec![file_entry("main.rs", "/r/src/main.rs")]);
    let l = listing(
        "/r",
        vec![dir_entry("src", "/r/src", Some(sub)), file_entry("README", "/r/README")],
    );
    let nodes = scan_listing(&l, "/r", 0);
    assert_eq!(names(&nodes), vec!["src", "README"]);
    let children = nodes[0].children.as_ref().unwrap();
    assert_eq!(names(children), vec!["main.rs"]);
    assert_eq!(children[0].path, "/r/src/main.rs");
    assert!(!children[0].is_dir);
}
