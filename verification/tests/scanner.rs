use costree::entry::{find_entry, remove_path, rename_entry, Entry};
use costree::format::{format_relative_time, human_size};
use costree::index::{index_subtree, reindex_prefix, remove_from_index, search_index, SearchIndex};
use costree::path::FsPath;

fn entry(name: &str, path: &str, size: u64, is_dir: bool, children: Vec<Entry>) -> Entry {
    Entry {
        name: name.to_string(),
        path: FsPath::parse(path),
        size,
        is_dir,
        scanned: true,
        children,
    }
}

fn p(s: &str) -> FsPath {
    FsPath::parse(s)
}

#[test]
fn human_size_formats_bytes() {
    assert_eq!(human_size(0), "0 B");
    assert_eq!(human_size(512), "512 B");
    assert_eq!(human_size(1024), "1.0 KB");
    assert_eq!(human_size(1536), "1.5 KB");
    assert_eq!(human_size(1024 * 1024), "1.0 MB");
    assert_eq!(human_size(1024 * 1024 * 1024), "1.0 GB");
}

#[test]
fn find_entry_locates_nested_path() {
    let child = entry("b", "/a/b", 10, false, vec![]);
    let root = entry("a", "/a", 10, true, vec![child]);

    assert_eq!(find_entry(&root, &p("/a/b")).map(|e| &e.name), Some(&"b".to_string()));
    assert!(find_entry(&root, &p("/a/missing")).is_none());
}

#[test]
fn remove_path_updates_ancestor_size_and_sort_order() {
    let small = entry("small", "/a/small", 10, false, vec![]);
    let big = entry("big", "/a/big", 100, false, vec![]);
    let mut root = entry("a", "/a", 110, true, vec![big, small]);

    assert!(remove_path(&mut root, &p("/a/big")));
    assert_eq!(root.size, 10);
    assert_eq!(root.children.len(), 1);
    assert_eq!(root.children[0].name, "small");
}

#[test]
fn remove_path_returns_false_for_missing_entry() {
    let mut root = entry("a", "/a", 0, true, vec![]);
    assert!(!remove_path(&mut root, &p("/a/missing")));
    assert_eq!(root.children.len(), 0);
}

#[test]
fn remove_path_recurses_into_nested_directories() {
    let grandchild = entry("g", "/a/b/g", 5, false, vec![]);
    let child = entry("b", "/a/b", 5, true, vec![grandchild]);
    let mut root = entry("a", "/a", 5, true, vec![child]);

    assert!(remove_path(&mut root, &p("/a/b/g")));
    assert_eq!(root.size, 0);
    assert_eq!(root.children[0].children.len(), 0);
}

#[test]
fn rename_entry_rewrites_descendant_paths() {
    let grandchild = entry("g", "/a/b/g", 5, false, vec![]);
    let child = entry("b", "/a/b", 5, true, vec![grandchild]);
    let mut root = entry("a", "/a", 5, true, vec![child]);

    assert!(rename_entry(&mut root, &p("/a/b"), &p("/a/c")));

    let renamed = &root.children[0];
    assert_eq!(renamed.name, "c");
    assert_eq!(renamed.path, p("/a/c"));
    assert_eq!(renamed.children[0].path, p("/a/c/g"));
    assert_eq!(renamed.children[0].name, "g");
}

#[test]
fn rename_entry_returns_false_for_missing_entry() {
    let mut root = entry("a", "/a", 0, true, vec![]);
    assert!(!rename_entry(&mut root, &p("/a/missing"), &p("/a/renamed")));
}

#[test]
fn index_subtree_flattens_and_lowercases_names() {
    let child = entry("Target.TXT", "/a/Target.TXT", 1, false, vec![]);
    let root = entry("A", "/a", 1, true, vec![child]);

    let mut index = SearchIndex::new();
    index_subtree(&root, &mut index);

    assert_eq!(index.len(), 2);
    assert!(index.contains(&(p("/a"), "a".to_string())));
    assert!(index.contains(&(p("/a/Target.TXT"), "target.txt".to_string())));
}

#[test]
fn search_index_includes_matches_and_their_ancestors() {
    let hit = entry("target.txt", "/a/b/target.txt", 1, false, vec![]);
    let miss = entry("other.txt", "/a/b/other.txt", 1, false, vec![]);
    let b = entry("b", "/a/b", 2, true, vec![hit, miss]);
    let root = entry("a", "/a", 2, true, vec![b]);

    let mut index = SearchIndex::new();
    index_subtree(&root, &mut index);
    let matches = search_index(&index, "target");

    assert!(matches.contains(&p("/a/b/target.txt")));
    assert!(matches.contains(&p("/a/b"))); // ancestor of a match
    assert!(matches.contains(&p("/a"))); // ancestor of a match
    assert!(!matches.contains(&p("/a/b/other.txt")));
}

#[test]
fn search_index_is_empty_when_nothing_matches() {
    let child = entry("file.txt", "/a/file.txt", 1, false, vec![]);
    let root = entry("a", "/a", 1, true, vec![child]);

    let mut index = SearchIndex::new();
    index_subtree(&root, &mut index);

    assert!(search_index(&index, "nope").is_empty());
}

#[test]
fn remove_from_index_drops_path_and_descendants() {
    let child = entry("g", "/a/b/g", 1, false, vec![]);
    let b = entry("b", "/a/b", 1, true, vec![child]);
    let root = entry("a", "/a", 1, true, vec![b]);

    let mut index = SearchIndex::new();
    index_subtree(&root, &mut index);
    remove_from_index(&mut index, &p("/a/b"));

    assert_eq!(index, vec![(p("/a"), "a".to_string())]);
}

#[test]
fn reindex_prefix_rewrites_matching_paths() {
    let child = entry("g", "/a/b/g", 1, false, vec![]);
    let b = entry("b", "/a/b", 1, true, vec![child]);
    let root = entry("a", "/a", 1, true, vec![b]);

    let mut index = SearchIndex::new();
    index_subtree(&root, &mut index);
    reindex_prefix(&mut index, &p("/a/b"), &p("/a/c"));

    assert!(index.contains(&(p("/a/c"), "b".to_string())));
    assert!(index.contains(&(p("/a/c/g"), "g".to_string())));
    assert!(index.contains(&(p("/a"), "a".to_string())));
}

#[test]
fn format_relative_time_buckets_correctly() {
    let now = std::time::SystemTime::now()
        .duration_since(std::time::UNIX_EPOCH)
        .unwrap()
        .as_secs();
    assert_eq!(format_relative_time(now), "just now");
    assert_eq!(format_relative_time(now - 120), "2m ago");
    assert_eq!(format_relative_time(now - 7200), "2h ago");
    assert_eq!(format_relative_time(now - 172_800), "2d ago");
}

#[test]
fn reindexing_there_and_back_gives_the_index_back() {
    let child = entry("g", "/a/b/g", 1, false, vec![]);
    let b = entry("b", "/a/b", 1, true, vec![child]);
    let root = entry("a", "/a", 1, true, vec![b]);
    let mut index = SearchIndex::new();
    index_subtree(&root, &mut index);
    let before = index.clone();
    reindex_prefix(&mut index, &p("/a/b"), &p("/x/y"));
    assert_ne!(index, before);
    reindex_prefix(&mut index, &p("/x/y"), &p("/a/b"));
    assert_eq!(index, before);
}
