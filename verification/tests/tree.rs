use relay_ssh::files::Entry;
use relay_ssh::paths::{PathMap, PathSet};
use relay_ssh::tree::{DirectoryTree, TreeCache, TreeRow};
use std::sync::Arc;

fn file(parent: &str, name: &str) -> Entry {
    Entry {
        name: name.into(),
        path: format!("{parent}/{name}"),
        directory: false,
        file: true,
        size: 0,
    }
}

fn folder(parent: &str, name: &str) -> Entry {
    Entry {
        name: name.into(),
        path: format!("{parent}/{name}"),
        directory: true,
        file: false,
        size: 0,
    }
}

#[test]
fn cached_search_and_rows_are_reused_and_invalidated_by_listing_changes() {
    let mut tree = DirectoryTree::default();
    let entry = |name: &str| Entry {
        name: name.into(),
        path: format!("/root/{name}"),
        directory: false,
        file: true,
        size: 0,
    };
    tree.insert("/root".into(), vec![entry("Café.txt"), entry("other.txt")]);
    let mut cache = TreeCache::default();
    let first = cache.rows(&tree, "/root", "café", &PathSet::new(), &PathMap::new());
    for _ in 0..100 {
        let next = cache.rows(&tree, "/root", "café", &PathSet::new(), &PathMap::new());
        assert!(Arc::ptr_eq(&first, &next));
    }
    assert_eq!((cache.search_builds, cache.row_builds), (1, 1));
    tree.insert("/root".into(), vec![entry("café-new.txt")]);
    let next = cache.rows(&tree, "/root", "café", &PathSet::new(), &PathMap::new());
    assert!(!Arc::ptr_eq(&first, &next));
    let TreeRow::Entry {
        directory, index, ..
    } = &next[0]
    else {
        panic!("Expected refreshed result")
    };
    assert_eq!(directory.entries[*index].name, "café-new.txt");
    assert_eq!((cache.search_builds, cache.row_builds), (2, 2));
    cache.invalidate_rows();
    cache.rows(&tree, "/root", "café", &PathSet::new(), &PathMap::new());
    assert_eq!((cache.search_builds, cache.row_builds), (2, 3));
    tree.clear();
    let empty = cache.rows(&tree, "/root", "café", &PathSet::new(), &PathMap::new());
    assert!(matches!(
        empty[0],
        TreeRow::Message {
            text: "No matching files or folders.",
            ..
        }
    ));
}

fn labels(rows: &[TreeRow]) -> Vec<String> {
    rows.iter()
        .map(|row| match row {
            TreeRow::Error { depth, error, .. } => format!("{depth} error {error}"),
            TreeRow::Entry {
                directory,
                index,
                depth,
                expanded,
            } => format!(
                "{depth} {}{}",
                directory.entries[*index].name,
                if *expanded { " open" } else { "" }
            ),
            TreeRow::Message { depth, text } => format!("{depth} {text}"),
        })
        .collect()
}

#[test]
fn rows_show_open_folders_loading_errors_and_empty_folders() {
    let mut tree = DirectoryTree::default();
    tree.insert(
        "/r".into(),
        vec![folder("/r", "a"), folder("/r", "b"), folder("/r", "c"), file("/r", "f")],
    );
    tree.insert("/r/a".into(), vec![]);
    tree.fail("/r/b".into(), "Permission denied".into());
    let mut expanded = PathSet::new();
    for p in ["/r/a", "/r/b", "/r/c"] {
        expanded.insert(p.to_string());
    }
    let mut cache = TreeCache::default();
    let rows = cache.rows(&tree, "/r", "", &expanded, &PathMap::new());
    assert_eq!(
        labels(&rows),
        [
            "0 a open",
            "1 Empty folder",
            "0 b open",
            "1 error Permission denied",
            "0 c open",
            "1 Loading…",
            "0 f"
        ]
    );
    assert!(cache.take_scroll_reset());
    assert!(!cache.take_scroll_reset());
}

#[test]
fn search_opens_folders_on_the_way_to_matches() {
    let mut tree = DirectoryTree::default();
    tree.insert("/r".into(), vec![folder("/r", "app"), file("/r", "README.md")]);
    tree.insert("/r/app".into(), vec![file("/r/app", "Config.toml"), file("/r/app", "main.rs")]);
    let mut cache = TreeCache::default();
    let matches = cache.matches(&tree, "/r", "config").unwrap();
    assert!(matches.contains("/r/app"));
    assert!(matches.contains("/r/app/Config.toml"));
    assert!(!matches.contains("/r/README.md"));
    let rows = cache.rows(&tree, "/r", "config", &PathSet::new(), &PathMap::new());
    assert_eq!(labels(&rows), ["0 app open", "1 Config.toml"]);
    let mut overrides = PathMap::new();
    overrides.insert("/r/app".to_string(), true);
    cache.invalidate_rows();
    let rows = cache.rows(&tree, "/r", "config", &PathSet::new(), &overrides);
    assert_eq!(labels(&rows), ["0 app open", "1 Config.toml", "1 main.rs"]);
    assert!(cache.matches(&tree, "/r", "").is_none());
}

#[test]
fn tree_keeps_listings_and_failures_apart() {
    let mut tree = DirectoryTree::default();
    tree.insert("/r".into(), vec![file("/r", "x")]);
    assert!(tree.contains_key("/r"));
    assert_eq!(tree.get("/r").unwrap()[0].name, "x");
    tree.fail("/r".into(), "Timed out".into());
    assert!(tree.get("/r").is_some());
    tree.retry("/r");
    tree.insert("/r/sub".into(), vec![]);
    tree.retain(|path, _| path != "/r/sub");
    assert!(!tree.contains_key("/r/sub"));
    assert!(tree.contains_key("/r"));
    tree.remove("/r");
    assert!(tree.get("/r").is_none());
}
