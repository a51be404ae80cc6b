use costree::app::{Action, AppModel, Message};
use costree::entry::{directory_entry, file_entry, list_top_level_from, DirItem, Entry};
use costree::path::FsPath;
use costree::pathset::PathSet;
use costree::rows::visible_rows;
use costree::saved::{SavedIndex, INDEX_FORMAT_VERSION};
use costree::status::ScanStatus;
use costree::view::{key_message, Body, Dialog, Key};

fn p(s: &str) -> FsPath {
    FsPath::parse(s)
}

fn fresh() -> (AppModel, ScanStatus) {
    let roots = vec![("Home".to_string(), p("/h")), ("Filesystem (/)".to_string(), p("/"))];
    (AppModel::new(p("/h"), false, roots), ScanStatus::new())
}

fn listing() -> Entry {
    list_top_level_from(
        p("/h"),
        vec![
            DirItem { path: p("/h/docs"), is_dir: true, size: 0 },
            DirItem { path: p("/h/a.txt"), is_dir: false, size: 3 },
            DirItem { path: p("/h/music"), is_dir: true, size: 0 },
        ],
    )
}

fn docs() -> Entry {
    directory_entry(
        p("/h/docs"),
        vec![file_entry(p("/h/docs/Target.md"), 40), file_entry(p("/h/docs/x"), 2)],
        true,
    )
}

fn music() -> Entry {
    directory_entry(p("/h/music"), vec![file_entry(p("/h/music/song"), 100)], true)
}

/// A model whose scan of `/h` has finished at time 500.
fn scanned() -> (AppModel, ScanStatus) {
    let (mut m, mut st) = fresh();
    m.handle(&mut st, Message::FolderPicked(p("/h")), 0);
    m.handle(&mut st, Message::SavedIndexChecked(None), 0);
    m.handle(&mut st, Message::TopLevelListed(listing()), 0);
    m.handle(&mut st, Message::BranchScanned(p("/h/docs"), Some(docs())), 0);
    m.handle(&mut st, Message::BranchScanned(p("/h/music"), Some(music())), 500);
    (m, st)
}

#[test]
fn a_new_model_waits_for_its_listing() {
    let (m, _) = fresh();
    assert!(m.listing);
    assert!(m.root.is_none());
    assert_eq!(m.root_input, "/h");
    assert_eq!(m.generation, 0);
    assert!(m.is_scanning());
    assert_eq!(m.status_text(&None), "Listing directory…");
}

#[test]
fn a_scan_runs_from_saved_index_check_to_finished_branches() {
    let (mut m, mut st) = fresh();
    let fx = m.handle(&mut st, Message::FolderPicked(p("/h")), 0);
    assert!(fx.advance_generation);
    assert!(matches!(&fx.action, Action::CheckSavedIndex(q) if *q == p("/h")));
    assert_eq!(st.current_generation(), 1);
    assert_eq!(m.generation, 1);
    assert!(m.expanded.contains(&p("/h")));

    let fx = m.handle(&mut st, Message::SavedIndexChecked(None), 0);
    assert!(matches!(&fx.action, Action::ListTopLevel(q) if *q == p("/h")));

    let fx = m.handle(&mut st, Message::TopLevelListed(listing()), 0);
    match &fx.action {
        Action::ScanBranches(dirs, g) => {
            assert_eq!(dirs, &vec![p("/h/docs"), p("/h/music")]);
            assert_eq!(*g, 1);
        }
        _ => panic!("expected branch scans"),
    }
    assert!(!m.listing);
    assert_eq!(m.pending_branches, 2);
    assert_eq!(m.total_branches, 2);
    assert_eq!(m.search_index.len(), 4);

    st.set_current_scan_path(p("/h/docs"));
    assert_eq!(m.status_text(&st.current_scan_path()), "Scanning /h/docs");

    let fx = m.handle(&mut st, Message::BranchScanned(p("/h/docs"), Some(docs())), 10);
    assert!(!fx.clear_scan_path);
    assert_eq!(m.pending_branches, 1);
    assert_eq!(m.root.as_ref().unwrap().size, 45);
    assert!(m.last_scan_time.is_none());

    let fx = m.handle(&mut st, Message::BranchScanned(p("/h/music"), Some(music())), 20);
    assert!(fx.clear_scan_path);
    assert!(st.current_scan_path().is_none());
    assert_eq!(m.pending_branches, 0);
    assert_eq!(m.last_scan_time, Some(20));
    let root = m.root.as_ref().unwrap();
    assert_eq!(root.size, 145);
    let names: Vec<&str> = root.children.iter().map(|c| c.name.as_str()).collect();
    assert_eq!(names, vec!["music", "docs", "a.txt"]);
    assert!(!m.is_scanning());
    assert_eq!(m.status_text(&None), "Idle");
}

#[test]
fn a_rescan_lists_afresh_without_the_saved_index() {
    let (mut m, mut st) = scanned();
    m.handle(&mut st, Message::Select(p("/h/docs")), 0);
    let fx = m.handle(&mut st, Message::Rescan, 0);
    assert!(fx.advance_generation);
    assert!(matches!(&fx.action, Action::ListTopLevel(q) if *q == p("/h")));
    assert_eq!(m.generation, st.current_generation());
    assert!(m.root.is_none());
    assert!(m.selected.is_none());
    assert!(m.listing);
    assert!(m.search_index.is_empty());
}

#[test]
fn a_listing_without_folders_finishes_at_once() {
    let (mut m, mut st) = fresh();
    m.handle(&mut st, Message::Rescan, 0);
    let only_file = list_top_level_from(
        p("/h"),
        vec![DirItem { path: p("/h/a.txt"), is_dir: false, size: 3 }],
    );
    let fx = m.handle(&mut st, Message::TopLevelListed(only_file), 77);
    assert!(matches!(&fx.action, Action::ScanBranches(dirs, _) if dirs.is_empty()));
    assert_eq!(m.last_scan_time, Some(77));
    assert_eq!(m.pending_branches, 0);
}

#[test]
fn a_saved_index_is_loaded_instead_of_scanning() {
    let (mut m, mut st) = fresh();
    m.handle(&mut st, Message::FolderPicked(p("/h")), 0);
    let saved = SavedIndex::new(docs(), 1234).current().expect("current format");
    let fx = m.handle(&mut st, Message::SavedIndexChecked(Some(saved)), 0);
    assert!(matches!(fx.action, Action::Nothing));
    assert!(!m.listing);
    assert_eq!(m.last_scan_time, Some(1234));
    assert_eq!(m.root.as_ref().unwrap().size, 42);
    assert_eq!(m.search_index.len(), 3);
}

#[test]
fn an_outdated_saved_index_is_refused() {
    let saved = SavedIndex::from_parts(INDEX_FORMAT_VERSION + 1, 5, docs());
    assert!(saved.current().is_none());
    let saved = SavedIndex::from_parts(INDEX_FORMAT_VERSION, 5, docs());
    assert_eq!(saved.current().map(|s| s.scanned_at), Some(5));
}

#[test]
fn cancel_makes_every_scan_in_flight_stale() {
    let (mut m, mut st) = fresh();
    m.handle(&mut st, Message::Rescan, 0);
    m.handle(&mut st, Message::TopLevelListed(listing()), 0);
    let started = m.generation;
    assert!(!st.is_stale(started));
    st.set_current_scan_path(p("/h/docs"));
    let fx = m.handle(&mut st, Message::CancelScan, 0);
    assert!(fx.advance_generation && fx.clear_scan_path);
    assert!(st.is_stale(started));
    assert!(st.current_scan_path().is_none());
    assert_eq!(m.pending_branches, 0);
    // Branches already listed keep their data.
    assert!(m.root.is_some());
}

#[test]
fn a_new_scan_supersedes_the_old_one() {
    let (mut m, mut st) = scanned();
    let first = m.generation;
    let fx = m.handle(&mut st, Message::QuickRootSelected(1), 0);
    assert!(matches!(&fx.action, Action::CheckSavedIndex(q) if *q == p("/")));
    assert!(st.is_stale(first));
    assert_eq!(m.generation, st.current_generation());
    assert_eq!(m.scan_root, p("/"));
    assert!(m.root.is_none());
    assert!(m.search_index.is_empty());
    // An index past the end of the list does nothing.
    let fx = m.handle(&mut st, Message::QuickRootSelected(9), 0);
    assert!(matches!(fx.action, Action::Nothing));
    assert!(!fx.advance_generation);
}

#[test]
fn search_runs_after_a_pause_and_keeps_only_the_latest() {
    let (mut m, mut st) = scanned();
    let fx = m.handle(&mut st, Message::SearchChanged("tar".to_string()), 0);
    assert!(matches!(fx.action, Action::SearchAfterPause(1)));
    assert!(m.searching);
    let fx = m.handle(&mut st, Message::SearchChanged("targ".to_string()), 0);
    assert!(matches!(fx.action, Action::SearchAfterPause(2)));
    // The pause for the first keystroke is outdated.
    let fx = m.handle(&mut st, Message::SearchDebounced(1), 0);
    assert!(matches!(fx.action, Action::Nothing));
    let fx = m.handle(&mut st, Message::SearchDebounced(2), 0);
    assert!(matches!(&fx.action, Action::Search(q, 2) if q == "targ"));
    let results = costree::index::search_index(&m.search_index, "targ");
    m.handle(&mut st, Message::SearchResultsReady(1, PathSet::new()), 0);
    assert!(m.search_results.is_none());
    m.handle(&mut st, Message::SearchResultsReady(2, results), 0);
    assert!(!m.searching);
    let found = m.search_results.as_ref().unwrap();
    assert!(found.contains(&p("/h/docs/Target.md")));
    assert!(found.contains(&p("/h/docs")));
    assert!(found.contains(&p("/h")));
    assert!(found.contains(&p("/")));
    assert_eq!(found.len(), 4);
    // Clearing the query drops the results.
    let fx = m.handle(&mut st, Message::SearchChanged(String::new()), 0);
    assert!(matches!(fx.action, Action::Nothing));
    assert!(m.search_results.is_none());
    assert!(!m.searching);
}

#[test]
fn delete_asks_first_and_then_updates_tree_and_index() {
    let (mut m, mut st) = scanned();
    // The scan root cannot be deleted.
    m.handle(&mut st, Message::Select(p("/h")), 0);
    assert!(!m.can_delete());
    m.handle(&mut st, Message::DeleteRequested, 0);
    assert!(m.confirm_delete.is_none());

    m.handle(&mut st, Message::Select(p("/h/docs")), 0);
    assert!(m.can_delete());
    m.handle(&mut st, Message::DeleteRequested, 0);
    assert!(matches!(m.dialog(), Dialog::ConfirmDelete(q, true) if q == p("/h/docs")));
    let fx = m.handle(&mut st, Message::DeleteConfirmed, 0);
    assert!(matches!(&fx.action, Action::Delete(q, true) if *q == p("/h/docs")));
    assert!(m.confirm_delete.is_none());
    assert!(matches!(m.dialog(), Dialog::Nothing));

    m.handle(&mut st, Message::DeleteCompleted(p("/h/docs"), Ok(())), 0);
    let root = m.root.as_ref().unwrap();
    assert_eq!(root.size, 103);
    assert_eq!(root.children.len(), 2);
    assert!(m.selected.is_none());
    assert_eq!(m.search_index.len(), 5);
    assert!(m.search_index.iter().all(|(q, _)| !q.starts_with(&p("/h/docs"))));
}

#[test]
fn a_failed_delete_reports_the_error() {
    let (mut m, mut st) = scanned();
    m.handle(
        &mut st,
        Message::DeleteCompleted(p("/h/a.txt"), Err("permission denied".to_string())),
        0,
    );
    assert_eq!(m.last_error.as_deref(), Some("couldn't delete /h/a.txt: permission denied"));
    assert_eq!(m.root.as_ref().unwrap().size, 145);
}

#[test]
fn delete_from_the_context_menu_selects_too() {
    let (mut m, mut st) = scanned();
    m.handle(&mut st, Message::DeleteContextRequested(p("/h/a.txt")), 0);
    assert_eq!(m.selected, Some(p("/h/a.txt")));
    assert!(matches!(m.dialog(), Dialog::ConfirmDelete(_, false)));
    m.handle(&mut st, Message::DeleteCancelled, 0);
    assert!(m.confirm_delete.is_none());
    m.handle(&mut st, Message::DeleteContextRequested(p("/h")), 0);
    assert!(m.confirm_delete.is_none());
}

#[test]
fn rename_moves_the_subtree_the_selection_and_the_open_folders() {
    let (mut m, mut st) = scanned();
    m.handle(&mut st, Message::ToggleExpand(p("/h/docs")), 0);
    m.handle(&mut st, Message::Select(p("/h/docs/x")), 0);
    m.handle(&mut st, Message::RenameRequested(p("/h/docs")), 0);
    assert!(matches!(m.dialog(), Dialog::Rename(n) if n == "docs"));
    m.handle(&mut st, Message::RenameInputChanged("  papers ".to_string()), 0);
    let fx = m.handle(&mut st, Message::RenameConfirmed, 0);
    assert!(
        matches!(&fx.action, Action::Rename(a, b) if *a == p("/h/docs") && *b == p("/h/papers"))
    );
    assert!(m.rename_target.is_none());
    m.handle(&mut st, Message::RenameCompleted(p("/h/docs"), p("/h/papers"), Ok(())), 0);
    assert_eq!(m.selected, Some(p("/h/papers/x")));
    assert!(m.expanded.contains(&p("/h/papers")));
    assert!(!m.expanded.contains(&p("/h/docs")));
    let root = m.root.as_ref().unwrap();
    assert!(costree::entry::find_entry(root, &p("/h/papers/Target.md")).is_some());
    assert!(m.search_index.iter().any(|(q, n)| *q == p("/h/papers") && n == "docs"));
}

#[test]
fn rename_refuses_a_bad_name() {
    let (mut m, mut st) = scanned();
    m.handle(&mut st, Message::RenameRequested(p("/h/a.txt")), 0);
    m.handle(&mut st, Message::RenameInputChanged("x/y".to_string()), 0);
    let fx = m.handle(&mut st, Message::RenameConfirmed, 0);
    assert!(matches!(fx.action, Action::Nothing));
    assert_eq!(m.last_error.as_deref(), Some("invalid name: \"x/y\""));
    m.handle(&mut st, Message::RenameRequested(p("/h/a.txt")), 0);
    m.handle(&mut st, Message::RenameInputChanged("  ".to_string()), 0);
    m.handle(&mut st, Message::RenameConfirmed, 0);
    assert_eq!(m.last_error.as_deref(), Some("invalid name: \"\""));
    // The scan root cannot be renamed.
    m.handle(&mut st, Message::RenameRequested(p("/h")), 0);
    assert!(m.rename_target.is_none());
}

#[test]
fn a_typed_root_is_checked_before_scanning() {
    let (mut m, mut st) = scanned();
    m.handle(&mut st, Message::RootInputChanged("  /nowhere  ".to_string()), 0);
    let fx = m.handle(&mut st, Message::RootSubmitted, 0);
    let (candidate, text) = match fx.action {
        Action::CheckDirectory(c, t) => (c, t),
        _ => panic!("expected a directory check"),
    };
    assert_eq!(candidate, p("/nowhere"));
    assert_eq!(text, "/nowhere");
    let fx = m.handle_root_checked(&mut st, candidate.clone(), text.clone(), false);
    assert!(matches!(fx.action, Action::Nothing));
    assert_eq!(m.last_error.as_deref(), Some("not a directory: /nowhere"));
    let before = st.current_generation();
    let fx = m.handle_root_checked(&mut st, candidate, text, true);
    assert!(matches!(&fx.action, Action::CheckSavedIndex(q) if *q == p("/nowhere")));
    assert_eq!(st.current_generation(), before + 1);
    assert_eq!(m.generation, st.current_generation());
}

#[test]
fn title_editing_and_folder_picking() {
    let (mut m, mut st) = scanned();
    m.handle(&mut st, Message::RootInputChanged("typed".to_string()), 0);
    let fx = m.handle(&mut st, Message::EditTitle, 0);
    assert!(matches!(&fx.action, Action::PickFolder(q) if *q == p("/h")));
    assert!(m.title_editing);
    assert_eq!(m.root_input, "/h");
    m.handle(&mut st, Message::FolderPickError("no portal".to_string()), 0);
    assert_eq!(m.last_error.as_deref(), Some("no portal"));
    m.handle(&mut st, Message::TitleEditCancelled, 0);
    assert!(!m.title_editing);
    let fx = m.handle(&mut st, Message::FolderPicked(p("/mnt/x")), 0);
    assert!(matches!(&fx.action, Action::CheckSavedIndex(q) if *q == p("/mnt/x")));
    assert_eq!(m.scan_root, p("/mnt/x"));
    assert!(m.last_error.is_none());
}

#[test]
fn saving_the_index_reports_back() {
    let (mut m, mut st) = scanned();
    let fx = m.handle(&mut st, Message::SaveIndex, 0);
    assert!(matches!(&fx.action, Action::SaveIndex(e, q) if e.size == 145 && *q == p("/h")));
    assert!(m.saving_index);
    m.handle(&mut st, Message::SaveIndexCompleted(Err("disk full".to_string())), 0);
    assert!(!m.saving_index);
    assert_eq!(m.last_error.as_deref(), Some("couldn't save index: disk full"));
    m.handle(&mut st, Message::SaveIndexCompleted(Ok(())), 0);
    assert!(m.last_error.is_none());
    // Nothing to save before a scan.
    let (mut empty, mut st2) = fresh();
    let fx = empty.handle(&mut st2, Message::SaveIndex, 0);
    assert!(matches!(fx.action, Action::Nothing));
    assert!(!empty.saving_index);
}

#[test]
fn settings_and_other_messages() {
    let (mut m, mut st) = scanned();
    let fx = m.handle(&mut st, Message::HideDotfilesToggled(true), 0);
    assert!(matches!(fx.action, Action::PersistHideDotfiles(true)));
    assert!(m.hide_dotfiles);
    let fx = m.handle(&mut st, Message::OpenInFiles(p("/h/a.txt")), 0);
    assert!(matches!(&fx.action, Action::OpenInFiles(q) if *q == p("/h/a.txt")));
    let fx = m.handle(&mut st, Message::Tick, 0);
    assert!(matches!(fx.action, Action::Nothing));
    m.handle(&mut st, Message::ToggleExpand(p("/h/music")), 0);
    assert!(m.expanded.contains(&p("/h/music")));
    m.handle(&mut st, Message::ToggleExpand(p("/h/music")), 0);
    assert!(!m.expanded.contains(&p("/h/music")));
}

#[test]
fn keys_map_to_messages() {
    assert!(matches!(key_message(false, Key::F5), Some(Message::Rescan)));
    assert!(matches!(key_message(false, Key::Delete), Some(Message::DeleteRequested)));
    assert!(key_message(false, Key::Other).is_none());
    assert!(key_message(true, Key::F5).is_none());
}

#[test]
fn visible_rows_follow_open_folders_and_search() {
    let (m, _) = scanned();
    let root = m.root.as_ref().unwrap();
    let rows = visible_rows(root, &m.expanded, &m.selected, false, &None);
    let shown: Vec<(String, usize)> = rows.iter().map(|r| (r.name.clone(), r.depth)).collect();
    assert_eq!(
        shown,
        vec![
            ("h".to_string(), 0),
            ("music".to_string(), 1),
            ("docs".to_string(), 1),
            ("a.txt".to_string(), 1)
        ]
    );
    // The listed root stays marked unscanned, so its size is not shown.
    assert!(rows[0].unscanned);
    assert_eq!(rows[0].size_text, "");
    assert_eq!(rows[1].size_text, "100 B");
    assert!(rows[0].is_expanded);

    let matches = costree::index::search_index(&m.search_index, "target");
    let rows = visible_rows(root, &m.expanded, &m.selected, false, &Some(matches));
    let shown: Vec<&str> = rows.iter().map(|r| r.name.as_str()).collect();
    assert_eq!(shown, vec!["h", "docs", "Target.md"]);
    assert!(rows.iter().all(|r| r.is_expanded));
}

#[test]
fn visible_rows_hide_dotfiles_below_the_root() {
    let root = directory_entry(
        p("/.r"),
        vec![file_entry(p("/.r/.hidden"), 1), file_entry(p("/.r/shown"), 1)],
        true,
    );
    let mut open = PathSet::new();
    open.insert(p("/.r"));
    let rows = visible_rows(&root, &open, &Some(p("/.r/shown")), true, &None);
    let shown: Vec<&str> = rows.iter().map(|r| r.name.as_str()).collect();
    assert_eq!(shown, vec![".r", "shown"]);
    assert!(rows[1].is_selected);
    let unscanned = costree::entry::unscanned_dir_entry(p("/u"));
    let rows = visible_rows(&unscanned, &open, &None, true, &None);
    assert!(rows[0].unscanned);
    assert_eq!(rows[0].size_text, "");
}

#[test]
fn accepts_message_refuses_totals_that_overflow() {
    let (m, _) = scanned();
    assert!(m.accepts_message(&Message::Tick));
    assert!(m.accepts_message(&Message::BranchScanned(p("/h/music"), Some(music()))));
    let huge = directory_entry(p("/h/music"), vec![file_entry(p("/h/music/x"), u64::MAX - 10)], true);
    assert!(!m.accepts_message(&Message::BranchScanned(p("/h/music"), Some(huge))));
    // Trees whose sizes do not add up are taken as they come.
    let mut broken = docs();
    broken.size = 1;
    assert!(m.accepts_message(&Message::TopLevelListed(broken.clone())));
    assert!(m.accepts_message(&Message::SavedIndexChecked(Some(SavedIndex::new(broken, 0)))));
    // A deletion whose recomputed total would overflow is refused.
    let (mut m2, mut st2) = fresh();
    m2.handle(&mut st2, Message::FolderPicked(p("/h")), 0);
    let odd = Entry {
        name: "h".to_string(),
        path: p("/h"),
        size: 0,
        is_dir: true,
        scanned: true,
        children: vec![
            file_entry(p("/h/a"), u64::MAX - 1),
            file_entry(p("/h/b"), 5),
            file_entry(p("/h/c"), 1),
        ],
    };
    m2.handle(&mut st2, Message::SavedIndexChecked(Some(SavedIndex::new(odd, 0))), 0);
    assert!(!m2.accepts_message(&Message::DeleteCompleted(p("/h/c"), Ok(()))));
    assert!(m2.accepts_message(&Message::DeleteCompleted(p("/h/c"), Err("no".to_string()))));
    let mut tired = m;
    tired.search_generation = u64::MAX;
    assert!(!tired.accepts_message(&Message::SearchChanged("x".to_string())));
}

#[test]
fn search_query_ignores_case() {
    let (m, _) = scanned();
    let found = costree::index::search_query(&m.search_index, "TARGET");
    assert!(found.contains(&p("/h/docs/Target.md")));
    assert_eq!(found.len(), 4);
    let copy = found.clone();
    assert_eq!(copy.len(), 4);
    assert!(copy.contains(&p("/")));
}

#[test]
fn search_rows_are_capped() {
    let files: Vec<Entry> =
        (0..1500).map(|i| file_entry(p(&format!("/big/file_{i}.txt")), 1)).collect();
    let root = directory_entry(p("/big"), files, true);
    let mut index = Vec::new();
    costree::index::index_subtree(&root, &mut index);
    let matches = costree::index::search_query(&index, "file_");
    assert_eq!(matches.len(), 1502);
    let rows = visible_rows(&root, &PathSet::new(), &None, false, &Some(matches));
    assert_eq!(rows.len(), costree::rows::MAX_SEARCH_RESULTS);
    assert_eq!(rows[0].name, "big");
}

#[test]
fn a_root_keeps_the_text_it_was_given() {
    let (mut m, mut st) = fresh();
    m.handle(&mut st, Message::FolderPicked(p("/mnt/x//")), 0);
    assert_eq!(m.root_input, "/mnt/x//");
    assert_eq!(m.scan_root, p("/mnt/x"));
    m.handle(&mut st, Message::RootInputChanged("other".to_string()), 0);
    m.handle(&mut st, Message::EditTitle, 0);
    assert_eq!(m.root_input, "/mnt/x//");
    let fx = m.handle_root_checked(&mut st, p("/srv/data/"), "/srv/data/".to_string(), true);
    assert!(matches!(fx.action, Action::CheckSavedIndex(_)));
    assert_eq!(m.root_input, "/srv/data/");
}

#[test]
fn the_main_area_follows_the_state() {
    let (mut m, _) = fresh();
    assert!(matches!(m.body(), Body::Listing));
    m.listing = false;
    assert!(matches!(m.body(), Body::NoData));

    let (m, _) = scanned();
    match m.body() {
        Body::Tree(rows, note) => {
            assert_eq!(rows.len(), 4);
            assert_eq!(rows[0].name, "h");
            assert!(note.is_none());
        }
        _ => panic!("expected the tree"),
    }

    let files: Vec<Entry> =
        (0..1500).map(|i| file_entry(p(&format!("/big/file_{i}.txt")), 1)).collect();
    let root = directory_entry(p("/big"), files, true);
    let mut index = Vec::new();
    costree::index::index_subtree(&root, &mut index);
    let (mut m, _) = fresh();
    m.root = Some(root);
    m.search_results = Some(costree::index::search_query(&index, "file_"));
    match m.body() {
        Body::Tree(rows, note) => {
            assert_eq!(rows.len(), 1000);
            assert_eq!(
                note.as_deref(),
                Some("Showing the first 1000 matches — refine your search to see more.")
            );
        }
        _ => panic!("expected the tree"),
    }
}
