use costree::entry::{
    directory_entry, entry_name, file_entry, find_entry, is_index_dir, list_top_level_from,
    position_of, remove_path, rename_entry, rewrite_paths, sort_entries, total_size,
    unscanned_dir_entry, DirItem, Entry, INDEX_DIR_NAME,
};
use costree::path::FsPath;

fn p(s: &str) -> FsPath {
    FsPath::parse(s)
}

fn file(path: &str, size: u64) -> Entry {
    file_entry(p(path), size)
}

fn dir(path: &str, children: Vec<Entry>) -> Entry {
    directory_entry(p(path), children, true)
}

fn sizes(v: &[Entry]) -> Vec<u64> {
    v.iter().map(|e| e.size).collect()
}

fn names(v: &[Entry]) -> Vec<String> {
    v.iter().map(|e| e.name.clone()).collect()
}

#[test]
fn file_entry_takes_its_name_from_the_path() {
    let f = file("/home/u/notes.txt", 42);
    assert_eq!(f.name, "notes.txt");
    assert_eq!(f.size, 42);
    assert!(!f.is_dir);
    assert!(f.scanned);
    assert!(f.children.is_empty());
}

#[test]
fn entry_name_of_the_root_is_the_whole_path() {
    assert_eq!(entry_name(&p("/")), "/");
    assert_eq!(entry_name(&p("/a/b/")), "b");
    assert_eq!(entry_name(&p("..")), "..");
}

#[test]
fn unscanned_dir_entry_is_empty() {
    let d = unscanned_dir_entry(p("/a/sub"));
    assert_eq!(d.name, "sub");
    assert_eq!(d.size, 0);
    assert!(d.is_dir);
    assert!(!d.scanned);
}

#[test]
fn directory_entry_sums_and_sorts_largest_first() {
    let d = dir(
        "/a",
        vec![file("/a/x", 3), file("/a/y", 10), file("/a/z", 3), file("/a/w", 7)],
    );
    assert_eq!(d.size, 23);
    assert_eq!(sizes(&d.children), vec![10, 7, 3, 3]);
    // Equal sizes keep the order they came in.
    assert_eq!(names(&d.children), vec!["y", "w", "x", "z"]);
    assert!(d.scanned);
    let empty = directory_entry(p("/e"), vec![], false);
    assert_eq!(empty.size, 0);
    assert!(!empty.scanned);
}

#[test]
fn sort_entries_is_stable_and_descending() {
    let v = vec![file("/1", 1), file("/2", 5), file("/3", 1), file("/4", 9), file("/5", 5)];
    let sorted = sort_entries(v);
    assert_eq!(sizes(&sorted), vec![9, 5, 5, 1, 1]);
    assert_eq!(names(&sorted), vec!["4", "2", "5", "1", "3"]);
}

#[test]
fn total_size_adds_up() {
    assert_eq!(total_size(&vec![]), 0);
    assert_eq!(total_size(&vec![file("/a", 1), file("/b", u64::MAX - 1)]), u64::MAX);
}

#[test]
fn is_index_dir_recognises_the_save_folder() {
    assert!(is_index_dir(&p("/home/u/.costree")));
    assert!(is_index_dir(&p(INDEX_DIR_NAME)));
    assert!(!is_index_dir(&p("/home/u/.costree/index.bin")));
    assert!(!is_index_dir(&p("/home/u/costree")));
    assert!(!is_index_dir(&p("/")));
}

#[test]
fn list_top_level_skips_the_index_directory() {
    let items = vec![
        DirItem { path: p("/r/file.txt"), is_dir: false, size: 2 },
        DirItem { path: p("/r/.costree"), is_dir: true, size: 0 },
        DirItem { path: p("/r/subdir"), is_dir: true, size: 4096 },
        DirItem { path: p("/r/big.bin"), is_dir: false, size: 50 },
    ];
    let listed = list_top_level_from(p("/r"), items);
    assert!(listed.is_dir);
    assert!(!listed.scanned);
    assert_eq!(listed.name, "r");
    assert_eq!(listed.size, 52);
    assert_eq!(names(&listed.children), vec!["big.bin", "file.txt", "subdir"]);
    let sub = &listed.children[2];
    assert!(sub.is_dir);
    assert!(!sub.scanned);
    assert_eq!(sub.size, 0);
    let f = &listed.children[1];
    assert!(!f.is_dir);
    assert!(f.scanned);
    assert_eq!(f.size, 2);
}

#[test]
fn position_of_finds_a_direct_child() {
    let v = vec![file("/a/x", 1), file("/a/y", 2)];
    assert_eq!(position_of(&v, &p("/a/y")), Some(1));
    assert_eq!(position_of(&v, &p("/a/z")), None);
}

fn sample() -> Entry {
    dir(
        "/a",
        vec![
            dir("/a/b", vec![file("/a/b/g", 5), file("/a/b/h", 1)]),
            dir("/a/c", vec![dir("/a/c/d", vec![file("/a/c/d/e", 7)])]),
            file("/a/f", 2),
        ],
    )
}

#[test]
fn remove_then_find_gives_nothing_and_sizes_add_up() {
    let mut root = sample();
    assert_eq!(root.size, 15);
    assert!(remove_path(&mut root, &p("/a/c/d/e")));
    assert!(find_entry(&root, &p("/a/c/d/e")).is_none());
    assert_eq!(root.size, 8);
    assert_eq!(find_entry(&root, &p("/a/c")).map(|e| e.size), Some(0));
    assert_eq!(find_entry(&root, &p("/a/c/d")).map(|e| e.size), Some(0));
    // The root's children are ordered largest-first again.
    assert_eq!(names(&root.children), vec!["b", "f", "c"]);
    // Removing it a second time finds nothing.
    assert!(!remove_path(&mut root, &p("/a/c/d/e")));
    assert_eq!(root.size, 8);
}

#[test]
fn remove_path_does_not_touch_the_root_itself() {
    let mut root = sample();
    assert!(!remove_path(&mut root, &p("/a")));
    assert_eq!(root.size, 15);
    assert_eq!(root.children.len(), 3);
}

#[test]
fn rename_then_find_at_the_new_path() {
    let mut root = sample();
    assert!(rename_entry(&mut root, &p("/a/c/d"), &p("/a/c/q")));
    let moved = find_entry(&root, &p("/a/c/q")).expect("renamed entry");
    assert_eq!(moved.name, "q");
    assert_eq!(moved.size, 7);
    assert_eq!(moved.children[0].path, p("/a/c/q/e"));
    assert!(find_entry(&root, &p("/a/c/d")).is_none());
    assert!(find_entry(&root, &p("/a/c/d/e")).is_none());
    assert_eq!(root.size, 15);
}

#[test]
fn rename_entry_of_the_root_rewrites_everything() {
    let mut root = sample();
    assert!(rename_entry(&mut root, &p("/a"), &p("/z")));
    assert_eq!(root.path, p("/z"));
    assert_eq!(root.name, "z");
    assert!(find_entry(&root, &p("/z/c/d/e")).is_some());
}

#[test]
fn rewrite_paths_leaves_other_paths_alone() {
    let mut e = dir("/x", vec![file("/x/y", 1)]);
    rewrite_paths(&mut e, &p("/other"), &p("/new"));
    assert_eq!(e.path, p("/x"));
    assert_eq!(e.children[0].path, p("/x/y"));
}

#[test]
fn clone_keeps_the_whole_tree() {
    let root = sample();
    let copy = root.clone();
    assert_eq!(copy.size, root.size);
    assert_eq!(names(&copy.children), names(&root.children));
    assert_eq!(copy.children[0].children[0].children[0].path, p("/a/c/d/e"));
}

#[test]
fn missing_paths_leave_the_tree_alone() {
    let mut root = sample();
    assert!(!rename_entry(&mut root, &p("/a/zz"), &p("/a/yy")));
    assert!(!remove_path(&mut root, &p("/a/b/zz")));
    let fresh = sample();
    assert_eq!(root.size, fresh.size);
    assert_eq!(names(&root.children), names(&fresh.children));
    assert_eq!(root.children[0].children[0].path, fresh.children[0].children[0].path);
}

#[test]
fn rename_entry_renames_a_file_child() {
    let mut root = dir("/a", vec![file("/a/f", 5)]);
    assert!(rename_entry(&mut root, &p("/a/f"), &p("/a/g")));
    assert_eq!(root.children[0].path, p("/a/g"));
    assert_eq!(root.children[0].name, "g");
    assert_eq!(root.children[0].size, 5);
    assert_eq!(root.path, p("/a"));
    let mut nested = sample();
    assert!(rename_entry(&mut nested, &p("/a/c/d/e"), &p("/a/c/d/z")));
    assert!(find_entry(&nested, &p("/a/c/d/z")).is_some());
    assert!(find_entry(&nested, &p("/a/c/d/e")).is_none());
}

#[test]
fn renaming_there_and_back_gives_the_tree_back() {
    let mut root = sample();
    assert!(rename_entry(&mut root, &p("/a/c"), &p("/a/q")));
    assert!(rename_entry(&mut root, &p("/a/q"), &p("/a/c")));
    let fresh = sample();
    assert_eq!(names(&root.children), names(&fresh.children));
    let d = find_entry(&root, &p("/a/c/d")).expect("moved back");
    assert_eq!(d.name, "d");
    assert_eq!(d.children[0].path, p("/a/c/d/e"));
    assert_eq!(root.size, fresh.size);
}

fn all_paths(e: &Entry, out: &mut Vec<String>) {
    out.push(e.path.text.clone());
    for c in &e.children {
        all_paths(c, out);
    }
}

#[test]
fn removing_a_folder_takes_out_its_subtree_and_leaves_the_rest() {
    let mut root = sample();
    let before_b = root.children.iter().find(|c| c.name == "b").unwrap().clone();
    let before_f = root.children.iter().find(|c| c.name == "f").unwrap().clone();
    assert!(remove_path(&mut root, &p("/a/c/d")));
    let mut left = Vec::new();
    all_paths(&root, &mut left);
    left.sort();
    assert_eq!(left, vec!["/a", "/a/b", "/a/b/g", "/a/b/h", "/a/c", "/a/f"]);
    // Entries off the way down to the removed folder are untouched.
    let after_b = root.children.iter().find(|c| c.name == "b").unwrap();
    let after_f = root.children.iter().find(|c| c.name == "f").unwrap();
    assert_eq!(after_b.size, before_b.size);
    assert_eq!(names(&after_b.children), names(&before_b.children));
    assert_eq!(after_f.size, before_f.size);
    assert_eq!(root.size, 8);
}
