use vstd::prelude::*;
use vstd::string::*;
use crate::path::{FsPath, PathModel, file_name, rebase, parent_of, join_path, parse_path};
use crate::entry::{
    removal_fits, Entry, EntryModel, models, lemma_children_models, consistent, direct_from, settle, sum_sizes,
    sort_by_size, find_model, remove_model, rename_model, find_entry, remove_path, rename_entry,
    sort_entries, total_size, lemma_sum_sort,
};
use crate::index::{
    SearchIndex, index_view, flatten, index_subtree, outside_of, remove_from_index, reindexed,
    reindex_prefix,
};
use crate::pathset::PathSet;
use crate::saved::SavedIndex;
use crate::text::{trimmed, trim_text, debug_text, debug_quoted, has_char};

verus! {

/// Abstract value of the application state.
pub struct AppView {
    pub scan_root: PathModel,
    /// The text the scan root was given as.
    pub scan_root_text: Seq<char>,
    pub root: Option<EntryModel>,
    pub expanded: Set<PathModel>,
    pub selected: Option<PathModel>,
    pub confirm_delete: Option<PathModel>,
    pub last_error: Option<Seq<char>>,
    pub listing: bool,
    pub pending_branches: nat,
    pub total_branches: nat,
    pub hide_dotfiles: bool,
    pub search_query: Seq<char>,
    pub search_index: Seq<(PathModel, Seq<char>)>,
    pub search_results: Option<Set<PathModel>>,
    pub searching: bool,
    pub search_generation: nat,
    pub root_input: Seq<char>,
    pub title_editing: bool,
    /// Label, path and the path's text of each quick-pick root.
    pub quick_roots: Seq<(Seq<char>, PathModel, Seq<char>)>,
    pub generation: nat,
    pub rename_target: Option<(PathModel, Seq<char>)>,
    pub last_scan_time: Option<nat>,
    pub saving_index: bool,
}

/// The state of the disk-usage browser: what is scanned, shown, selected
/// and searched.
pub struct AppModel {
    pub scan_root: FsPath,
    pub root: Option<Entry>,
    pub expanded: PathSet,
    pub selected: Option<FsPath>,
    /// Path awaiting user confirmation in the delete dialog.
    pub confirm_delete: Option<FsPath>,
    pub last_error: Option<String>,
    /// True while the initial (fast, single-level) directory listing is in flight.
    pub listing: bool,
    /// Number of top-level directories whose recursive scan hasn't completed yet.
    pub pending_branches: usize,
    pub total_branches: usize,
    pub hide_dotfiles: bool,
    pub search_query: String,
    /// Flat, pre-lowercased index built incrementally as branches finish
    /// scanning, so search doesn't have to walk the nested tree itself.
    pub search_index: SearchIndex,
    /// Result of the last completed search.
    pub search_results: Option<PathSet>,
    /// True while waiting for typing to pause (or for the search itself to
    /// finish).
    pub searching: bool,
    /// Bumped on every keystroke; a debounced search only takes effect if
    /// its generation still matches this when it fires.
    pub search_generation: u64,
    /// Text currently in the root-path field.
    pub root_input: String,
    /// True while the title shows an editable path field.
    pub title_editing: bool,
    /// Home, filesystem root, and other detected mounted volumes.
    pub quick_roots: Vec<(String, FsPath)>,
    /// Scan generation this state's scan was started with.
    pub generation: u64,
    /// Path and in-progress new name for the rename dialog.
    pub rename_target: Option<(FsPath, String)>,
    /// When the data currently displayed was scanned.
    pub last_scan_time: Option<u64>,
    /// True while a manual "Save index" write is in flight.
    pub saving_index: bool,
}

pub open spec fn opt_path(p: Option<FsPath>) -> Option<PathModel> {
    match p {
        Some(q) => Some(q@),
        None => None,
    }
}

pub open spec fn opt_entry(e: Option<Entry>) -> Option<EntryModel> {
    match e {
        Some(x) => Some(x.model()),
        None => None,
    }
}

pub open spec fn opt_text(e: Option<String>) -> Option<Seq<char>> {
    match e {
        Some(x) => Some(x@),
        None => None,
    }
}

pub open spec fn opt_set(e: Option<PathSet>) -> Option<Set<PathModel>> {
    match e {
        Some(x) => Some(x@),
        None => None,
    }
}

pub open spec fn opt_time(e: Option<u64>) -> Option<nat> {
    match e {
        Some(x) => Some(x as nat),
        None => None,
    }
}

pub open spec fn opt_target(e: Option<(FsPath, String)>) -> Option<(PathModel, Seq<char>)> {
    match e {
        Some(x) => Some((x.0@, x.1@)),
        None => None,
    }
}

pub open spec fn roots_view(s: Seq<(String, FsPath)>) -> Seq<(Seq<char>, PathModel, Seq<char>)> {
    Seq::new(s.len(), |i: int| (s[i].0@, s[i].1@, s[i].1.text@))
}

impl View for AppModel {
    type V = AppView;

    open spec fn view(&self) -> AppView {
        AppView {
            scan_root: self.scan_root@,
            scan_root_text: self.scan_root.text@,
            root: opt_entry(self.root),
            expanded: self.expanded@,
            selected: opt_path(self.selected),
            confirm_delete: opt_path(self.confirm_delete),
            last_error: opt_text(self.last_error),
            listing: self.listing,
            pending_branches: self.pending_branches as nat,
            total_branches: self.total_branches as nat,
            hide_dotfiles: self.hide_dotfiles,
            search_query: self.search_query@,
            search_index: index_view(self.search_index@),
            search_results: opt_set(self.search_results),
            searching: self.searching,
            search_generation: self.search_generation as nat,
            root_input: self.root_input@,
            title_editing: self.title_editing,
            quick_roots: roots_view(self.quick_roots@),
            generation: self.generation as nat,
            rename_target: opt_target(self.rename_target),
            last_scan_time: opt_time(self.last_scan_time),
            saving_index: self.saving_index,
        }
    }
}

/// Work the state asks the surrounding program to do.
pub enum Action {
    Nothing,
    /// Look for a saved index under this root before scanning it.
    CheckSavedIndex(FsPath),
    /// List the immediate children of this root.
    ListTopLevel(FsPath),
    /// Scan each of these directories in the background, with this
    /// generation.
    ScanBranches(Vec<FsPath>, u64),
    /// Write this tree as the saved index of this root.
    SaveIndex(Entry, FsPath),
    /// Wait for typing to pause, then report this search generation.
    SearchAfterPause(u64),
    /// Search the index for this query, reporting this generation.
    Search(String, u64),
    /// Delete this path; the flag says whether it is a directory.
    Delete(FsPath, bool),
    /// Rename the first path to the second.
    Rename(FsPath, FsPath),
    /// Open the folder picker, starting from this path.
    PickFolder(FsPath),
    /// Open this path in the file manager (or its default application).
    OpenInFiles(FsPath),
    /// Persist the hide-dotfiles setting.
    PersistHideDotfiles(bool),
    /// Check whether this path (typed as this text) is a directory, and
    /// report back through `root_checked`.
    CheckDirectory(FsPath, String),
}

/// What the state asks for after a step.
pub struct Effects {
    /// Start a new scan generation, which cancels every scan in flight.
    pub advance_generation: bool,
    /// Forget the directory the last background scan visited.
    pub clear_scan_path: bool,
    pub action: Action,
}

/// Abstract value of an action.
pub enum ActionView {
    Nothing,
    CheckSavedIndex(PathModel),
    ListTopLevel(PathModel),
    ScanBranches(Seq<PathModel>, nat),
    SaveIndex(EntryModel, PathModel),
    SearchAfterPause(nat),
    Search(Seq<char>, nat),
    Delete(PathModel, bool),
    Rename(PathModel, PathModel),
    PickFolder(PathModel),
    OpenInFiles(PathModel),
    PersistHideDotfiles(bool),
    CheckDirectory(PathModel, Seq<char>),
}

pub struct EffectsView {
    pub advance_generation: bool,
    pub clear_scan_path: bool,
    pub action: ActionView,
}

pub open spec fn paths_view(s: Seq<FsPath>) -> Seq<PathModel> {
    Seq::new(s.len(), |i: int| s[i]@)
}

impl View for Action {
    type V = ActionView;

    open spec fn view(&self) -> ActionView {
        match self {
            Action::Nothing => ActionView::Nothing,
            Action::CheckSavedIndex(p) => ActionView::CheckSavedIndex(p@),
            Action::ListTopLevel(p) => ActionView::ListTopLevel(p@),
            Action::ScanBranches(ps, g) => ActionView::ScanBranches(paths_view(ps@), *g as nat),
            Action::SaveIndex(e, p) => ActionView::SaveIndex(e.model(), p@),
            Action::SearchAfterPause(g) => ActionView::SearchAfterPause(*g as nat),
            Action::Search(q, g) => ActionView::Search(q@, *g as nat),
            Action::Delete(p, d) => ActionView::Delete(p@, *d),
            Action::Rename(a, b) => ActionView::Rename(a@, b@),
            Action::PickFolder(p) => ActionView::PickFolder(p@),
            Action::OpenInFiles(p) => ActionView::OpenInFiles(p@),
            Action::PersistHideDotfiles(b) => ActionView::PersistHideDotfiles(*b),
            Action::CheckDirectory(p, t) => ActionView::CheckDirectory(p@, t@),
        }
    }
}

impl View for Effects {
    type V = EffectsView;

    open spec fn view(&self) -> EffectsView {
        EffectsView {
            advance_generation: self.advance_generation,
            clear_scan_path: self.clear_scan_path,
            action: self.action@,
        }
    }
}

pub open spec fn just(a: ActionView) -> EffectsView {
    EffectsView { advance_generation: false, clear_scan_path: false, action: a }
}

pub open spec fn quiet() -> EffectsView {
    just(ActionView::Nothing)
}

fn effects(action: Action) -> (fx: Effects)
    ensures
        fx@ == just(action@),
{
    Effects { advance_generation: false, clear_scan_path: false, action }
}

/// The state in which nothing has been scanned yet.
pub open spec fn initial_view(
    scan_root: PathModel,
    scan_root_text: Seq<char>,
    hide_dotfiles: bool,
    quick_roots: Seq<(Seq<char>, PathModel, Seq<char>)>,
) -> AppView {
    AppView {
        scan_root,
        scan_root_text,
        root: None,
        expanded: Set::empty(),
        selected: None,
        confirm_delete: None,
        last_error: None,
        listing: true,
        pending_branches: 0,
        total_branches: 0,
        hide_dotfiles,
        search_query: Seq::empty(),
        search_index: Seq::empty(),
        search_results: None,
        searching: false,
        search_generation: 0,
        root_input: scan_root_text,
        title_editing: false,
        quick_roots,
        generation: 0,
        rename_target: None,
        last_scan_time: None,
        saving_index: false,
    }
}

/// The state after a fresh scan of `root`, given as the text `root_text`,
/// begins with generation `gen`.
pub open spec fn begun(s: AppView, root: PathModel, root_text: Seq<char>, gen: nat) -> AppView {
    AppView {
        generation: gen,
        scan_root: root,
        scan_root_text: root_text,
        root_input: root_text,
        title_editing: false,
        expanded: Set::empty().insert(root),
        listing: true,
        pending_branches: 0,
        total_branches: 0,
        root: None,
        selected: None,
        confirm_delete: None,
        rename_target: None,
        last_error: None,
        search_index: Seq::empty(),
        search_results: None,
        searching: false,
        last_scan_time: None,
        saving_index: false,
        ..s
    }
}

/// Law: beginning a scan of any root, whatever the state before, leaves no
/// search behind: no results, no index and no search running, and no tree
/// until the new root is listed.
pub proof fn lemma_a_new_scan_forgets_the_search(
    s: AppView,
    root: PathModel,
    root_text: Seq<char>,
    gen: nat,
)
    ensures
        begun(s, root, root_text, gen).search_results is None,
        begun(s, root, root_text, gen).search_index.len() == 0,
        !begun(s, root, root_text, gen).searching,
        begun(s, root, root_text, gen).root is None,
        begun(s, root, root_text, gen).scan_root == root,
{
}

/// A forced rescan starts a new generation and lists the root afresh,
/// without looking for its saved index.
pub open spec fn rescan_effects(root: PathModel) -> EffectsView {
    EffectsView {
        advance_generation: true,
        clear_scan_path: false,
        action: ActionView::ListTopLevel(root),
    }
}

pub open spec fn begin_effects(root: PathModel) -> EffectsView {
    EffectsView {
        advance_generation: true,
        clear_scan_path: false,
        action: ActionView::CheckSavedIndex(root),
    }
}

/// What every step keeps: progress never exceeds the total, and the scan
/// root is never offered for deletion or renaming.
pub open spec fn wf(s: AppView) -> bool {
    &&& s.pending_branches <= s.total_branches
    &&& s.confirm_delete != Some(s.scan_root)
    &&& (s.rename_target matches Some(t) ==> t.0 != s.scan_root)
}

impl AppModel {
    /// The state before the first scan: `scan_root` is where scanning will
    /// start, `hide_dotfiles` the saved setting, `quick_roots` the
    /// quick-pick list.
    pub fn new(scan_root: FsPath, hide_dotfiles: bool, quick_roots: Vec<(String, FsPath)>) -> (s:
        AppModel)
        ensures
            s@ == initial_view(scan_root@, scan_root.text@, hide_dotfiles, roots_view(quick_roots@)),
            wf(s@),
    {
        let root_input = scan_root.text.clone();
        let s = AppModel {
            scan_root,
            root: None,
            expanded: PathSet::new(),
            selected: None,
            confirm_delete: None,
            last_error: None,
            listing: true,
            pending_branches: 0,
            total_branches: 0,
            hide_dotfiles,
            search_query: String::new(),
            search_index: Vec::new(),
            search_results: None,
            searching: false,
            search_generation: 0,
            root_input,
            title_editing: false,
            quick_roots,
            generation: 0,
            rename_target: None,
            last_scan_time: None,
            saving_index: false,
        };
        proof {
            assert(index_view(s.search_index@) =~= Seq::<(PathModel, Seq<char>)>::empty());
            assert(s@ =~= initial_view(
                scan_root@,
                scan_root.text@,
                hide_dotfiles,
                roots_view(quick_roots@),
            ));
        }
        s
    }

    /// Resets scan-related state and asks for a fresh look at `root`;
    /// `generation` is the scan generation the new scan runs under.
    pub fn begin_scan(&mut self, root: FsPath, generation: u64) -> (fx: Effects)
        requires
            wf(old(self)@),
        ensures
            final(self)@ == begun(old(self)@, root@, root.text@, generation as nat),
            fx@ == begin_effects(root@),
            wf(final(self)@),
    {
        self.generation = generation;
        self.root_input = root.text.clone();
        self.title_editing = false;
        let mut expanded = PathSet::new();
        expanded.insert(root.clone());
        self.expanded = expanded;
        self.listing = true;
        self.pending_branches = 0;
        self.total_branches = 0;
        self.root = None;
        self.selected = None;
        self.confirm_delete = None;
        self.rename_target = None;
        self.last_error = None;
        self.search_index = Vec::new();
        self.search_results = None;
        self.searching = false;
        self.last_scan_time = None;
        self.saving_index = false;
        let check = root.clone();
        self.scan_root = root;
        proof {
            assert(index_view(self.search_index@) =~= Seq::<(PathModel, Seq<char>)>::empty());
            assert(self@ =~= begun(old(self)@, root@, root.text@, generation as nat));
        }
        Effects {
            advance_generation: true,
            clear_scan_path: false,
            action: Action::CheckSavedIndex(check),
        }
    }
}


/// An event the state reacts to.
pub enum Message {
    TopLevelListed(Entry),
    BranchScanned(FsPath, Option<Entry>),
    ToggleExpand(FsPath),
    Select(FsPath),
    /// Scan the current root afresh, without loading its saved index.
    Rescan,
    CancelScan,
    DeleteRequested,
    DeleteContextRequested(FsPath),
    DeleteConfirmed,
    DeleteCancelled,
    DeleteCompleted(FsPath, Result<(), String>),
    Tick,
    HideDotfilesToggled(bool),
    SearchChanged(String),
    SearchDebounced(u64),
    SearchResultsReady(u64, PathSet),
    RootInputChanged(String),
    RootSubmitted,
    QuickRootSelected(usize),
    EditTitle,
    TitleEditCancelled,
    FolderPicked(FsPath),
    FolderPickCancelled,
    FolderPickError(String),
    OpenInFiles(FsPath),
    RenameRequested(FsPath),
    RenameInputChanged(String),
    RenameConfirmed,
    RenameCancelled,
    RenameCompleted(FsPath, FsPath, Result<(), String>),
    SaveIndex,
    SaveIndexCompleted(Result<(), String>),
    /// Result of checking `<root>/.costree/` for a saved index when
    /// beginning a scan. `Some` loads it directly instead of scanning;
    /// `None` falls through to a normal fresh scan.
    SavedIndexChecked(Option<SavedIndex>),
}

/// The paths of the directories among `s`, in order.
pub open spec fn dir_paths(s: Seq<EntryModel>) -> Seq<PathModel>
    decreases s.len(),
{
    if s.len() == 0 {
        Seq::empty()
    } else {
        let r = dir_paths(s.drop_last());
        if s.last().is_dir {
            r.push(s.last().path)
        } else {
            r
        }
    }
}

/// The root `r` with its first child at `p` replaced by `e`, then resized
/// and resorted.
pub open spec fn with_branch(r: EntryModel, p: PathModel, e: EntryModel) -> EntryModel {
    settle(
        r,
        match direct_from(r.children, p, 0) {
            Some(i) => r.children.update(i, e),
            None => r.children,
        },
    )
}

/// `p` moved from under `from` to under `to` when it lies there; `p`
/// otherwise.
pub open spec fn moved(p: PathModel, from: PathModel, to: PathModel) -> PathModel {
    match rebase(p, from, to) {
        Some(q) => q,
        None => p,
    }
}

/// The function that moves a path from under `from` to under `to`.
pub open spec fn mover(from: PathModel, to: PathModel) -> spec_fn(PathModel) -> PathModel {
    |p: PathModel| moved(p, from, to)
}

/// The name a rename dialog starts with: the file name of `p`, or nothing.
pub open spec fn initial_name(p: PathModel) -> Seq<char> {
    match file_name(p) {
        Some(n) => n,
        None => Seq::empty(),
    }
}

/// Whether the tree holds a directory at `p`.
pub open spec fn is_dir_in(root: Option<EntryModel>, p: PathModel) -> bool {
    match root {
        Some(r) => match find_model(r, p) {
            Some(e) => e.is_dir,
            None => false,
        },
        None => false,
    }
}

/// The step a message makes from state `s`, given the current time `now`
/// and the generation `gen` a scan begun now would run under.
#[verifier::opaque]
pub open spec fn step(s: AppView, m: Message, now: nat, gen: nat) -> (AppView, EffectsView) {
    match m {
        Message::TopLevelListed(e) => {
            let dirs = dir_paths(e.model().children);
            (
                AppView {
                    listing: false,
                    pending_branches: dirs.len(),
                    total_branches: dirs.len(),
                    root: Some(e.model()),
                    search_index: s.search_index + flatten(e.model()),
                    last_scan_time: if dirs.len() == 0 {
                        Some(now)
                    } else {
                        s.last_scan_time
                    },
                    ..s
                },
                just(ActionView::ScanBranches(dirs, s.generation)),
            )
        },
        Message::BranchScanned(p, scanned) => {
            let s1 = match scanned {
                Some(e) => AppView {
                    search_index: s.search_index + flatten(e.model()),
                    root: match s.root {
                        Some(r) => Some(with_branch(r, p@, e.model())),
                        None => None,
                    },
                    ..s
                },
                None => s,
            };
            if s.pending_branches <= 1 {
                (
                    AppView { pending_branches: 0, last_scan_time: Some(now), ..s1 },
                    EffectsView {
                        advance_generation: false,
                        clear_scan_path: true,
                        action: ActionView::Nothing,
                    },
                )
            } else {
                (AppView { pending_branches: (s.pending_branches - 1) as nat, ..s1 }, quiet())
            }
        },
        Message::ToggleExpand(p) => (
            AppView {
                expanded: if s.expanded.contains(p@) {
                    s.expanded.remove(p@)
                } else {
                    s.expanded.insert(p@)
                },
                ..s
            },
            quiet(),
        ),
        Message::Select(p) => (AppView { selected: Some(p@), ..s }, quiet()),
        Message::Rescan => (
            begun(s, s.scan_root, s.scan_root_text, gen),
            rescan_effects(s.scan_root),
        ),
        Message::CancelScan => (
            AppView { pending_branches: 0, ..s },
            EffectsView { advance_generation: true, clear_scan_path: true, action: ActionView::Nothing },
        ),
        Message::DeleteRequested => match s.selected {
            Some(x) => if x != s.scan_root {
                (AppView { confirm_delete: Some(x), ..s }, quiet())
            } else {
                (s, quiet())
            },
            None => (s, quiet()),
        },
        Message::DeleteContextRequested(p) => if p@ != s.scan_root {
            (AppView { selected: Some(p@), confirm_delete: Some(p@), ..s }, quiet())
        } else {
            (s, quiet())
        },
        Message::DeleteConfirmed => match s.confirm_delete {
            Some(p) => (
                AppView { confirm_delete: None, ..s },
                just(ActionView::Delete(p, is_dir_in(s.root, p))),
            ),
            None => (s, quiet()),
        },
        Message::DeleteCancelled => (AppView { confirm_delete: None, ..s }, quiet()),
        Message::DeleteCompleted(p, result) => match result {
            Ok(_) => (
                AppView {
                    root: match s.root {
                        Some(r) => Some(remove_model(r, p@).1),
                        None => None,
                    },
                    search_index: outside_of(s.search_index, p@),
                    selected: if s.selected == Some(p@) {
                        None
                    } else {
                        s.selected
                    },
                    expanded: s.expanded.remove(p@),
                    last_error: None,
                    ..s
                },
                quiet(),
            ),
            Err(e) => (
                AppView {
                    last_error: Some("couldn't delete "@ + p.text@ + ": "@ + e@),
                    ..s
                },
                quiet(),
            ),
        },
        Message::Tick => (s, quiet()),
        Message::HideDotfilesToggled(v) => (
            AppView { hide_dotfiles: v, ..s },
            just(ActionView::PersistHideDotfiles(v)),
        ),
        Message::SearchChanged(q) => {
            let g = s.search_generation + 1;
            if q@.len() == 0 {
                (
                    AppView {
                        search_query: q@,
                        search_generation: g,
                        search_results: None,
                        searching: false,
                        ..s
                    },
                    quiet(),
                )
            } else {
                (
                    AppView { search_query: q@, search_generation: g, searching: true, ..s },
                    just(ActionView::SearchAfterPause(g)),
                )
            }
        },
        Message::SearchDebounced(g) => if g as nat == s.search_generation {
            (s, just(ActionView::Search(s.search_query, g as nat)))
        } else {
            (s, quiet())
        },
        Message::SearchResultsReady(g, results) => if g as nat == s.search_generation {
            (AppView { search_results: Some(results@), searching: false, ..s }, quiet())
        } else {
            (s, quiet())
        },
        Message::RootInputChanged(v) => (AppView { root_input: v@, ..s }, quiet()),
        Message::RootSubmitted => {
            let text = trimmed(s.root_input);
            (s, just(ActionView::CheckDirectory(parse_path(text), text)))
        },
        Message::QuickRootSelected(i) => if (i as int) < s.quick_roots.len() {
            let q = s.quick_roots[i as int];
            (begun(s, q.1, q.2, gen), begin_effects(q.1))
        } else {
            (s, quiet())
        },
        Message::EditTitle => (
            AppView { title_editing: true, root_input: s.scan_root_text, ..s },
            just(ActionView::PickFolder(s.scan_root)),
        ),
        Message::TitleEditCancelled => (AppView { title_editing: false, ..s }, quiet()),
        Message::FolderPicked(p) => (begun(s, p@, p.text@, gen), begin_effects(p@)),
        Message::FolderPickCancelled => (s, quiet()),
        Message::FolderPickError(e) => (AppView { last_error: Some(e@), ..s }, quiet()),
        Message::OpenInFiles(p) => (s, just(ActionView::OpenInFiles(p@))),
        Message::RenameRequested(p) => if p@ != s.scan_root {
            (AppView { rename_target: Some((p@, initial_name(p@))), ..s }, quiet())
        } else {
            (s, quiet())
        },
        Message::RenameInputChanged(v) => match s.rename_target {
            Some(t) => (AppView { rename_target: Some((t.0, v@)), ..s }, quiet()),
            None => (s, quiet()),
        },
        Message::RenameCancelled => (AppView { rename_target: None, ..s }, quiet()),
        Message::RenameConfirmed => match s.rename_target {
            Some(t) => {
                let name = trimmed(t.1);
                let s1 = AppView { rename_target: None, ..s };
                if name.len() == 0 || name.contains('/') {
                    (
                        AppView { last_error: Some("invalid name: "@ + debug_text(name)), ..s1 },
                        quiet(),
                    )
                } else {
                    match parent_of(t.0) {
                        Some(par) => (
                            s1,
                            just(ActionView::Rename(t.0, join_path(par, parse_path(name)))),
                        ),
                        None => (s1, quiet()),
                    }
                }
            },
            None => (s, quiet()),
        },
        Message::RenameCompleted(from, to, result) => match result {
            Ok(_) => (
                AppView {
                    root: match s.root {
                        Some(r) => Some(rename_model(r, from@, to@).1),
                        None => None,
                    },
                    search_index: reindexed(s.search_index, from@, to@),
                    selected: match s.selected {
                        Some(x) => Some(moved(x, from@, to@)),
                        None => None,
                    },
                    expanded: s.expanded.map(mover(from@, to@)),
                    last_error: None,
                    ..s
                },
                quiet(),
            ),
            Err(e) => (
                AppView {
                    last_error: Some("couldn't rename "@ + from.text@ + ": "@ + e@),
                    ..s
                },
                quiet(),
            ),
        },
        Message::SaveIndex => match s.root {
            Some(r) => (
                AppView { saving_index: true, ..s },
                just(ActionView::SaveIndex(r, s.scan_root)),
            ),
            None => (s, quiet()),
        },
        Message::SaveIndexCompleted(result) => match result {
            Ok(_) => (AppView { saving_index: false, last_error: None, ..s }, quiet()),
            Err(e) => (
                AppView {
                    saving_index: false,
                    last_error: Some("couldn't save index: "@ + e@),
                    ..s
                },
                quiet(),
            ),
        },
        Message::SavedIndexChecked(saved) => match saved {
            Some(si) => (
                AppView {
                    listing: false,
                    last_scan_time: Some(si.scanned_at as nat),
                    search_index: s.search_index + flatten(si.root.model()),
                    root: Some(si.root.model()),
                    ..s
                },
                quiet(),
            ),
            None => (s, just(ActionView::ListTopLevel(s.scan_root))),
        },
    }
}

/// What a message needs of the state to be taken without overflow: the
/// root's total after a finished branch fits a `u64`, every size a
/// deletion recomputes fits a `u64`, and the search generation can still
/// grow.
pub open spec fn accepts(s: AppView, m: Message) -> bool {
    match m {
        Message::BranchScanned(p, scanned) => match scanned {
            Some(e) => s.root matches Some(r) ==> sum_sizes(
                match direct_from(r.children, p@, 0) {
                    Some(i) => r.children.update(i, e.model()),
                    None => r.children,
                },
            ) <= u64::MAX,
            None => true,
        },
        Message::DeleteCompleted(p, result) => result is Ok ==> (s.root matches Some(r)
            ==> removal_fits(r, p@)),
        Message::SearchChanged(_) => s.search_generation < u64::MAX,
        _ => true,
    }
}


/// The text `a` followed by `b` and `c`.
fn text3(a: &str, b: &str, c: &str) -> (r: String)
    ensures
        r@ == a@ + b@ + c@,
{
    let mut out = String::from_str(a);
    out.append(b);
    out.append(c);
    out
}

/// The paths of the directories among `v`, in order.
fn branch_dirs(v: &Vec<Entry>) -> (r: Vec<FsPath>)
    ensures
        paths_view(r@) == dir_paths(models(v@)),
{
    let ghost ms = models(v@);
    let mut r: Vec<FsPath> = Vec::new();
    let mut i: usize = 0;
    proof {
        assert(ms.take(0) =~= Seq::<EntryModel>::empty());
        assert(paths_view(r@) =~= Seq::<PathModel>::empty());
    }
    while i < v.len()
        invariant
            i <= v.len(),
            ms == models(v@),
            paths_view(r@) == dir_paths(ms.take(i as int)),
        decreases v.len() - i,
    {
        proof {
            assert(ms.take(i + 1).drop_last() =~= ms.take(i as int));
            assert(ms.take(i + 1).last() == v@[i as int].model());
        }
        if v[i].is_dir {
            let ghost before = r@;
            r.push(v[i].path.clone());
            proof {
                assert(paths_view(r@) =~= paths_view(before).push(v@[i as int].path@));
            }
        }
        i = i + 1;
    }
    proof {
        assert(ms.take(v.len() as int) =~= ms);
    }
    r
}

/// Law: every step keeps the state's invariant.
#[verifier::rlimit(80)]
pub proof fn lemma_step_keeps_wf(s: AppView, m: Message, now: nat, gen: nat)
    requires
        wf(s),
        accepts(s, m),
    ensures
        wf(step(s, m, now, gen).0),
{
    reveal(step);
    match m {
        Message::BranchScanned(p, scanned) => {},
        Message::DeleteCompleted(p, result) => {},
        Message::RenameCompleted(from, to, result) => {},
        Message::SavedIndexChecked(saved) => {},
        Message::TopLevelListed(e) => {},
        Message::QuickRootSelected(i) => {},
        Message::RenameConfirmed => {},
        _ => {},
    }
}

/// Whether the step a message makes reads the current time.
pub open spec fn uses_now(m: Message) -> bool {
    m is TopLevelListed || m is BranchScanned
}

/// Whether the step a message makes may begin a scan.
pub open spec fn uses_generation(m: Message) -> bool {
    m is Rescan || m is QuickRootSelected || m is FolderPicked
}

/// The step of `m` depends on the time and the next generation only where
/// `uses_now` and `uses_generation` say so.
pub proof fn lemma_step_ignores_time(s: AppView, m: Message, now: nat, gen: nat)
    ensures
        step(s, m, now, gen) == step(
            s,
            m,
            if uses_now(m) {
                now
            } else {
                0
            },
            if uses_generation(m) {
                gen
            } else {
                0
            },
        ),
{
    reveal(step);
}

pub proof fn lemma_with_branch_consistent(r: EntryModel, p: PathModel, e: EntryModel)
    requires
        consistent(r),
        consistent(e),
        sum_sizes(
            match direct_from(r.children, p, 0) {
                Some(i) => r.children.update(i, e),
                None => r.children,
            },
        ) <= u64::MAX,
    ensures
        consistent(with_branch(r, p, e)),
{
    crate::entry::lemma_direct_in_range(r.children, p, 0);
    let ch = match direct_from(r.children, p, 0) {
        Some(i) => r.children.update(i, e),
        None => r.children,
    };
    assert forall|i: int| 0 <= i < ch.len() implies consistent(#[trigger] ch[i]) by {
        assert(consistent(r.children[i]));
    }
    if r.is_dir {
        crate::entry::lemma_settle_consistent(r, ch);
    } else {
        assert(ch.len() == 0);
        assert(sort_by_size(ch) =~= ch);
    }
}

impl AppModel {
    /// Cancels any scan in flight; already-scanned branches keep their data.
    pub fn cancel_scan(&mut self) -> (fx: Effects)
        ensures
            (final(self)@, fx@) == step(old(self)@, Message::CancelScan, 0, 0),
    {
        reveal(step);
        self.pending_branches = 0;
        Effects { advance_generation: true, clear_scan_path: true, action: Action::Nothing }
    }

    fn on_top_level_listed(&mut self, entry: Entry, now: u64) -> (fx: Effects)
        ensures
            (final(self)@, fx@) == step(old(self)@, Message::TopLevelListed(entry), now as nat, 0),
    {
        reveal(step);
        proof {
            lemma_children_models(&entry);
        }
        self.listing = false;
        let dirs = branch_dirs(&entry.children);
        self.pending_branches = dirs.len();
        self.total_branches = dirs.len();
        index_subtree(&entry, &mut self.search_index);
        if dirs.len() == 0 {
            self.last_scan_time = Some(now);
        }
        let ghost em = entry.model();
        self.root = Some(entry);
        let fx = effects(Action::ScanBranches(dirs, self.generation));
        proof {
            assert(self@ =~= step(old(self)@, Message::TopLevelListed(entry), now as nat, 0).0);
        }
        fx
    }

    fn on_branch_scanned(&mut self, path: FsPath, scanned: Option<Entry>, now: u64) -> (fx:
        Effects)
        requires
            wf(old(self)@),
            accepts(old(self)@, Message::BranchScanned(path, scanned)),
        ensures
            (final(self)@, fx@) == step(
                old(self)@,
                Message::BranchScanned(path, scanned),
                now as nat,
                0,
            ),
    {
        reveal(step);
        let ghost s = self@;
        match scanned {
            Some(entry) => {
                index_subtree(&entry, &mut self.search_index);
                let ghost em = entry.model();
                match &mut self.root {
                    Some(root) => {
                        proof {
                            lemma_children_models(root);
                        }
                        let ghost r = root.model();
                        let pos = crate::entry::position_of(&root.children, &path);
                        match pos {
                            Some(i) => {
                                let ghost before = root.children@;
                                root.children.set(i, entry);
                                proof {
                                    assert(models(root.children@) =~= r.children.update(
                                        i as int,
                                        em,
                                    ));
                                }
                            },
                            None => {},
                        }
                        let ghost ch = models(root.children@);
                        let mut kids: Vec<Entry> = Vec::new();
                        std::mem::swap(&mut kids, &mut root.children);
                        root.children = sort_entries(kids);
                        proof {
                            lemma_sum_sort(ch);
                        }
                        root.size = total_size(&root.children);
                        proof {
                            lemma_children_models(root);
                            assert(root.model() == with_branch(r, path@, em));
                        }
                    },
                    None => {},
                }
            },
            None => {},
        }
        let ghost s1 = self@;
        self.pending_branches = self.pending_branches.saturating_sub(1);
        if self.pending_branches == 0 {
            self.last_scan_time = Some(now);
            proof {
                assert(self@ =~= step(s, Message::BranchScanned(path, scanned), now as nat, 0).0);
            }
            return Effects { advance_generation: false, clear_scan_path: true, action: Action::Nothing };
        }
        proof {
            assert(self@ =~= step(s, Message::BranchScanned(path, scanned), now as nat, 0).0);
        }
        effects(Action::Nothing)
    }
}


impl AppModel {
    fn on_delete_confirmed(&mut self) -> (fx: Effects)
        ensures
            (final(self)@, fx@) == step(old(self)@, Message::DeleteConfirmed, 0, 0),
    {
        reveal(step);
        match self.confirm_delete.take() {
            Some(path) => {
                let is_dir = match &self.root {
                    Some(r) => match find_entry(r, &path) {
                        Some(e) => e.is_dir,
                        None => false,
                    },
                    None => false,
                };
                proof {
                    assert(self@ =~= step(old(self)@, Message::DeleteConfirmed, 0, 0).0);
                }
                effects(Action::Delete(path, is_dir))
            },
            None => effects(Action::Nothing),
        }
    }

    fn on_delete_completed(&mut self, path: FsPath, result: Result<(), String>) -> (fx: Effects)
        requires
            accepts(old(self)@, Message::DeleteCompleted(path, result)),
        ensures
            (final(self)@, fx@) == step(old(self)@, Message::DeleteCompleted(path, result), 0, 0),
    {
        reveal(step);
        match result {
            Ok(()) => {
                match &mut self.root {
                    Some(root) => {
                        remove_path(root, &path);
                    },
                    None => {},
                }
                remove_from_index(&mut self.search_index, &path);
                let clear = match &self.selected {
                    Some(x) => x.same_as(&path),
                    None => false,
                };
                if clear {
                    self.selected = None;
                }
                self.expanded.remove(&path);
                self.last_error = None;
                proof {
                    assert(self@ =~= step(
                        old(self)@,
                        Message::DeleteCompleted(path, result),
                        0,
                        0,
                    ).0);
                }
                effects(Action::Nothing)
            },
            Err(err) => {
                let head = text3("couldn't delete ", path.text.as_str(), ": ");
                self.last_error = Some(text3(head.as_str(), err.as_str(), ""));
                proof {
                    reveal_strlit("");
                    assert(self@ =~= step(
                        old(self)@,
                        Message::DeleteCompleted(path, result),
                        0,
                        0,
                    ).0);
                }
                effects(Action::Nothing)
            },
        }
    }

    fn on_search_changed(&mut self, query: String) -> (fx: Effects)
        requires
            old(self).search_generation < u64::MAX,
        ensures
            (final(self)@, fx@) == step(old(self)@, Message::SearchChanged(query), 0, 0),
    {
        reveal(step);
        let empty = query.as_str().unicode_len() == 0;
        self.search_query = query;
        self.search_generation = self.search_generation + 1;
        if empty {
            self.search_results = None;
            self.searching = false;
            proof {
                assert(self@ =~= step(old(self)@, Message::SearchChanged(query), 0, 0).0);
            }
            effects(Action::Nothing)
        } else {
            self.searching = true;
            proof {
                assert(self@ =~= step(old(self)@, Message::SearchChanged(query), 0, 0).0);
            }
            effects(Action::SearchAfterPause(self.search_generation))
        }
    }

    fn on_rename_requested(&mut self, path: FsPath) -> (fx: Effects)
        ensures
            (final(self)@, fx@) == step(old(self)@, Message::RenameRequested(path), 0, 0),
    {
        reveal(step);
        if !path.same_as(&self.scan_root) {
            let name = match path.file_name() {
                Some(n) => n,
                None => String::new(),
            };
            self.rename_target = Some((path, name));
            proof {
                assert(self@ =~= step(old(self)@, Message::RenameRequested(path), 0, 0).0);
            }
        }
        effects(Action::Nothing)
    }

    fn on_rename_input(&mut self, value: String) -> (fx: Effects)
        ensures
            (final(self)@, fx@) == step(old(self)@, Message::RenameInputChanged(value), 0, 0),
    {
        reveal(step);
        match self.rename_target.take() {
            Some((p, _)) => {
                self.rename_target = Some((p, value));
                proof {
                    assert(self@ =~= step(old(self)@, Message::RenameInputChanged(value), 0, 0).0);
                }
            },
            None => {},
        }
        effects(Action::Nothing)
    }

    fn on_rename_confirmed(&mut self) -> (fx: Effects)
        ensures
            (final(self)@, fx@) == step(old(self)@, Message::RenameConfirmed, 0, 0),
    {
        reveal(step);
        match self.rename_target.take() {
            Some((old_path, new_name)) => {
                let name = trim_text(new_name.as_str());
                if name.as_str().unicode_len() == 0 || has_char(name.as_str(), '/') {
                    let quoted = debug_quoted(name.as_str());
                    self.last_error = Some(text3("invalid name: ", quoted.as_str(), ""));
                    proof {
                        reveal_strlit("");
                        assert(self@ =~= step(old(self)@, Message::RenameConfirmed, 0, 0).0);
                    }
                    effects(Action::Nothing)
                } else {
                    match old_path.parent() {
                        Some(parent) => {
                            let rel = FsPath::parse(name.as_str());
                            let new_path = parent.join(&rel);
                            proof {
                                assert(self@ =~= step(old(self)@, Message::RenameConfirmed, 0, 0).0);
                            }
                            effects(Action::Rename(old_path, new_path))
                        },
                        None => {
                            proof {
                                assert(self@ =~= step(old(self)@, Message::RenameConfirmed, 0, 0).0);
                            }
                            effects(Action::Nothing)
                        },
                    }
                }
            },
            None => effects(Action::Nothing),
        }
    }

    fn on_rename_completed(&mut self, from: FsPath, to: FsPath, result: Result<(), String>) -> (fx:
        Effects)
        requires
            wf(old(self)@),
        ensures
            (final(self)@, fx@) == step(
                old(self)@,
                Message::RenameCompleted(from, to, result),
                0,
                0,
            ),
    {
        reveal(step);
        match result {
            Ok(()) => {
                match &mut self.root {
                    Some(root) => {
                        rename_entry(root, &from, &to);
                    },
                    None => {},
                }
                reindex_prefix(&mut self.search_index, &from, &to);
                match self.selected.take() {
                    Some(x) => {
                        let moved_to = match x.rebased(&from, &to) {
                            Some(q) => q,
                            None => x,
                        };
                        self.selected = Some(moved_to);
                    },
                    None => {},
                }
                let remapped = remap_paths(&self.expanded, &from, &to);
                self.expanded = remapped;
                self.last_error = None;
                proof {
                    assert(self@ =~= step(
                        old(self)@,
                        Message::RenameCompleted(from, to, result),
                        0,
                        0,
                    ).0);
                }
                effects(Action::Nothing)
            },
            Err(err) => {
                let head = text3("couldn't rename ", from.text.as_str(), ": ");
                self.last_error = Some(text3(head.as_str(), err.as_str(), ""));
                proof {
                    reveal_strlit("");
                    assert(self@ =~= step(
                        old(self)@,
                        Message::RenameCompleted(from, to, result),
                        0,
                        0,
                    ).0);
                }
                effects(Action::Nothing)
            },
        }
    }

    fn on_saved_index_checked(&mut self, saved: Option<SavedIndex>) -> (fx: Effects)
        ensures
            (final(self)@, fx@) == step(old(self)@, Message::SavedIndexChecked(saved), 0, 0),
    {
        reveal(step);
        match saved {
            Some(si) => {
                self.listing = false;
                self.last_scan_time = Some(si.scanned_at);
                index_subtree(&si.root, &mut self.search_index);
                self.root = Some(si.root);
                proof {
                    assert(self@ =~= step(old(self)@, Message::SavedIndexChecked(saved), 0, 0).0);
                }
                effects(Action::Nothing)
            },
            None => effects(Action::ListTopLevel(self.scan_root.clone())),
        }
    }

    fn on_save_index_completed(&mut self, result: Result<(), String>) -> (fx: Effects)
        ensures
            (final(self)@, fx@) == step(old(self)@, Message::SaveIndexCompleted(result), 0, 0),
    {
        reveal(step);
        self.saving_index = false;
        match result {
            Ok(()) => {
                self.last_error = None;
            },
            Err(err) => {
                self.last_error = Some(text3("couldn't save index: ", err.as_str(), ""));
                proof {
                    reveal_strlit("");
                }
            },
        }
        proof {
            assert(self@ =~= step(old(self)@, Message::SaveIndexCompleted(result), 0, 0).0);
        }
        effects(Action::Nothing)
    }
}

/// Every path of `set` moved from under `from` to under `to` where it lies
/// there.
fn remap_paths(set: &PathSet, from: &FsPath, to: &FsPath) -> (r: PathSet)
    ensures
        r@ == set@.map(mover(from@, to@)),
{
    let paths = set.paths();
    let ghost pv = crate::pathset::path_models(paths@);
    let mut out = PathSet::new();
    let mut i: usize = 0;
    while i < paths.len()
        invariant
            i <= paths.len(),
            pv == crate::pathset::path_models(paths@),
            pv.to_set() == set@,
            out@ == Set::new(
                |q: PathModel| exists|j: int| 0 <= j < i && q == moved(#[trigger] pv[j], from@, to@),
            ),
        decreases paths.len() - i,
    {
        let p = &paths[i];
        let q = match p.rebased(from, to) {
            Some(q) => q,
            None => p.clone(),
        };
        let ghost before = out@;
        proof {
            assert(pv[i as int] == p@);
            assert(q@ == moved(pv[i as int], from@, to@));
        }
        out.insert(q);
        proof {
            assert(out@ =~= Set::new(
                |x: PathModel| exists|j: int| 0 <= j < i + 1 && x == moved(#[trigger] pv[j], from@, to@),
            )) by {
                assert forall|x: PathModel| #[trigger] out@.contains(x) implies exists|j: int|
                    0 <= j < i + 1 && x == moved(#[trigger] pv[j], from@, to@) by {
                    if x == q@ {
                        assert(x == moved(pv[i as int], from@, to@));
                    } else {
                        assert(before.contains(x));
                    }
                }
            }
        }
        i = i + 1;
    }
    proof {
        let target = set@.map(mover(from@, to@));
        assert forall|x: PathModel| target.contains(x) implies out@.contains(x) by {
            let p = choose|p: PathModel| set@.contains(p) && mover(from@, to@)(p) == x;
            assert(pv.contains(p));
            let j = choose|j: int| 0 <= j < pv.len() && pv[j] == p;
            assert(x == moved(pv[j], from@, to@));
        }
        assert forall|x: PathModel| out@.contains(x) implies target.contains(x) by {
            let j = choose|j: int| 0 <= j < pv.len() && x == moved(#[trigger] pv[j], from@, to@);
            assert(pv.contains(pv[j]));
            assert(set@.contains(pv[j]));
            assert(mover(from@, to@)(pv[j]) == x);
        }
        assert(out@ =~= target);
    }
    out
}


/// The step after the surrounding program has checked whether the typed
/// root `candidate` (read from `candidate_text`, typed as `text`) is a
/// directory.
pub open spec fn root_checked_step(
    s: AppView,
    candidate: PathModel,
    candidate_text: Seq<char>,
    text: Seq<char>,
    is_dir: bool,
    gen: nat,
) -> (AppView, EffectsView) {
    if is_dir {
        (begun(s, candidate, candidate_text, gen), begin_effects(candidate))
    } else {
        (AppView { last_error: Some("not a directory: "@ + text), ..s }, quiet())
    }
}

impl AppModel {
    fn on_toggle_expand(&mut self, path: FsPath) -> (fx: Effects)
        ensures
            (final(self)@, fx@) == step(old(self)@, Message::ToggleExpand(path), 0, 0),
    {
        reveal(step);
        let ghost before = self.expanded@;
        if !self.expanded.remove(&path) {
            proof {
                assert(before.remove(path@) =~= before);
            }
            self.expanded.insert(path);
        }
        proof {
            assert(self@ =~= step(old(self)@, Message::ToggleExpand(path), 0, 0).0);
        }
        effects(Action::Nothing)
    }

    fn on_select(&mut self, path: FsPath) -> (fx: Effects)
        ensures
            (final(self)@, fx@) == step(old(self)@, Message::Select(path), 0, 0),
    {
        reveal(step);
        self.selected = Some(path);
        proof {
            assert(self@ =~= step(old(self)@, Message::Select(path), 0, 0).0);
        }
        effects(Action::Nothing)
    }

    fn on_rescan(&mut self, generation: u64) -> (fx: Effects)
        requires
            wf(old(self)@),
        ensures
            (final(self)@, fx@) == step(old(self)@, Message::Rescan, 0, generation as nat),
    {
        reveal(step);
        let root = self.scan_root.clone();
        let _started = self.begin_scan(root, generation);
        let listed = self.scan_root.clone();
        Effects {
            advance_generation: true,
            clear_scan_path: false,
            action: Action::ListTopLevel(listed),
        }
    }

    fn on_delete_requested(&mut self) -> (fx: Effects)
        ensures
            (final(self)@, fx@) == step(old(self)@, Message::DeleteRequested, 0, 0),
    {
        reveal(step);
        let target = match &self.selected {
            Some(x) => if !x.same_as(&self.scan_root) {
                Some(x.clone())
            } else {
                None
            },
            None => None,
        };
        match target {
            Some(x) => {
                self.confirm_delete = Some(x);
            },
            None => {},
        }
        proof {
            assert(self@ =~= step(old(self)@, Message::DeleteRequested, 0, 0).0);
        }
        effects(Action::Nothing)
    }

    fn on_delete_context(&mut self, path: FsPath) -> (fx: Effects)
        ensures
            (final(self)@, fx@) == step(old(self)@, Message::DeleteContextRequested(path), 0, 0),
    {
        reveal(step);
        if !path.same_as(&self.scan_root) {
            self.selected = Some(path.clone());
            self.confirm_delete = Some(path);
        }
        proof {
            assert(self@ =~= step(old(self)@, Message::DeleteContextRequested(path), 0, 0).0);
        }
        effects(Action::Nothing)
    }

    fn on_delete_cancelled(&mut self) -> (fx: Effects)
        ensures
            (final(self)@, fx@) == step(old(self)@, Message::DeleteCancelled, 0, 0),
    {
        reveal(step);
        self.confirm_delete = None;
        proof {
            assert(self@ =~= step(old(self)@, Message::DeleteCancelled, 0, 0).0);
        }
        effects(Action::Nothing)
    }

    fn on_hide_dotfiles(&mut self, value: bool) -> (fx: Effects)
        ensures
            (final(self)@, fx@) == step(old(self)@, Message::HideDotfilesToggled(value), 0, 0),
    {
        reveal(step);
        self.hide_dotfiles = value;
        proof {
            assert(self@ =~= step(old(self)@, Message::HideDotfilesToggled(value), 0, 0).0);
        }
        effects(Action::PersistHideDotfiles(value))
    }

    fn on_search_debounced(&mut self, g: u64) -> (fx: Effects)
        ensures
            (final(self)@, fx@) == step(old(self)@, Message::SearchDebounced(g), 0, 0),
    {
        reveal(step);
        if g == self.search_generation {
            let query = self.search_query.clone();
            effects(Action::Search(query, g))
        } else {
            effects(Action::Nothing)
        }
    }

    fn on_search_results(&mut self, g: u64, results: PathSet) -> (fx: Effects)
        ensures
            (final(self)@, fx@) == step(old(self)@, Message::SearchResultsReady(g, results), 0, 0),
    {
        reveal(step);
        if g == self.search_generation {
            self.search_results = Some(results);
            self.searching = false;
            proof {
                assert(self@ =~= step(old(self)@, Message::SearchResultsReady(g, results), 0, 0).0);
            }
        }
        effects(Action::Nothing)
    }

    fn on_root_input(&mut self, value: String) -> (fx: Effects)
        ensures
            (final(self)@, fx@) == step(old(self)@, Message::RootInputChanged(value), 0, 0),
    {
        reveal(step);
        self.root_input = value;
        proof {
            assert(self@ =~= step(old(self)@, Message::RootInputChanged(value), 0, 0).0);
        }
        effects(Action::Nothing)
    }

    fn on_root_submitted(&mut self) -> (fx: Effects)
        ensures
            (final(self)@, fx@) == step(old(self)@, Message::RootSubmitted, 0, 0),
    {
        reveal(step);
        let text = trim_text(self.root_input.as_str());
        let candidate = FsPath::parse(text.as_str());
        effects(Action::CheckDirectory(candidate, text))
    }

    fn on_quick_root(&mut self, index: usize, generation: u64) -> (fx: Effects)
        requires
            wf(old(self)@),
        ensures
            (final(self)@, fx@) == step(
                old(self)@,
                Message::QuickRootSelected(index),
                0,
                generation as nat,
            ),
    {
        reveal(step);
        if index < self.quick_roots.len() {
            let root = self.quick_roots[index].1.clone();
            proof {
                assert(roots_view(self.quick_roots@)[index as int].1 == root@);
                assert(roots_view(self.quick_roots@)[index as int].2 == root.text@);
            }
            self.begin_scan(root, generation)
        } else {
            effects(Action::Nothing)
        }
    }

    fn on_edit_title(&mut self) -> (fx: Effects)
        ensures
            (final(self)@, fx@) == step(old(self)@, Message::EditTitle, 0, 0),
    {
        reveal(step);
        self.title_editing = true;
        self.root_input = self.scan_root.text.clone();
        proof {
            assert(self@ =~= step(old(self)@, Message::EditTitle, 0, 0).0);
        }
        effects(Action::PickFolder(self.scan_root.clone()))
    }

    fn on_title_edit_cancelled(&mut self) -> (fx: Effects)
        ensures
            (final(self)@, fx@) == step(old(self)@, Message::TitleEditCancelled, 0, 0),
    {
        reveal(step);
        self.title_editing = false;
        proof {
            assert(self@ =~= step(old(self)@, Message::TitleEditCancelled, 0, 0).0);
        }
        effects(Action::Nothing)
    }

    fn on_folder_picked(&mut self, path: FsPath, generation: u64) -> (fx: Effects)
        requires
            wf(old(self)@),
        ensures
            (final(self)@, fx@) == step(old(self)@, Message::FolderPicked(path), 0, generation as nat),
    {
        reveal(step);
        self.begin_scan(path, generation)
    }

    fn on_folder_pick_error(&mut self, err: String) -> (fx: Effects)
        ensures
            (final(self)@, fx@) == step(old(self)@, Message::FolderPickError(err), 0, 0),
    {
        reveal(step);
        self.last_error = Some(err);
        proof {
            assert(self@ =~= step(old(self)@, Message::FolderPickError(err), 0, 0).0);
        }
        effects(Action::Nothing)
    }

    fn on_rename_cancelled(&mut self) -> (fx: Effects)
        ensures
            (final(self)@, fx@) == step(old(self)@, Message::RenameCancelled, 0, 0),
    {
        reveal(step);
        self.rename_target = None;
        proof {
            assert(self@ =~= step(old(self)@, Message::RenameCancelled, 0, 0).0);
        }
        effects(Action::Nothing)
    }

    fn on_save_index(&mut self) -> (fx: Effects)
        ensures
            (final(self)@, fx@) == step(old(self)@, Message::SaveIndex, 0, 0),
    {
        reveal(step);
        match &self.root {
            Some(r) => {
                let copy = r.clone();
                self.saving_index = true;
                proof {
                    assert(self@ =~= step(old(self)@, Message::SaveIndex, 0, 0).0);
                }
                effects(Action::SaveIndex(copy, self.scan_root.clone()))
            },
            None => effects(Action::Nothing),
        }
    }

    /// Reacts to `message`. `now` is the current time and `generation` the
    /// scan generation that a scan begun by this step runs under (the
    /// surrounding program starts it when the effects ask to).
    pub fn update(&mut self, message: Message, now: u64, generation: u64) -> (fx: Effects)
        requires
            wf(old(self)@),
            accepts(old(self)@, message),
        ensures
            (final(self)@, fx@) == step(old(self)@, message, now as nat, generation as nat),
            wf(final(self)@),
    {
        proof {
            lemma_step_keeps_wf(self@, message, now as nat, generation as nat);
            lemma_step_ignores_time(self@, message, now as nat, generation as nat);
        }
        match message {
            Message::TopLevelListed(entry) => self.on_top_level_listed(entry, now),
            Message::BranchScanned(path, scanned) => self.on_branch_scanned(path, scanned, now),
            Message::ToggleExpand(path) => self.on_toggle_expand(path),
            Message::Select(path) => self.on_select(path),
            Message::Rescan => self.on_rescan(generation),
            Message::CancelScan => self.cancel_scan(),
            Message::DeleteRequested => self.on_delete_requested(),
            Message::DeleteContextRequested(path) => self.on_delete_context(path),
            Message::DeleteConfirmed => self.on_delete_confirmed(),
            Message::DeleteCancelled => self.on_delete_cancelled(),
            Message::DeleteCompleted(path, result) => self.on_delete_completed(path, result),
            Message::Tick => {
                proof {
                    reveal(step);
                }
                effects(Action::Nothing)
            },
            Message::HideDotfilesToggled(value) => self.on_hide_dotfiles(value),
            Message::SearchChanged(query) => self.on_search_changed(query),
            Message::SearchDebounced(g) => self.on_search_debounced(g),
            Message::SearchResultsReady(g, results) => self.on_search_results(g, results),
            Message::RootInputChanged(value) => self.on_root_input(value),
            Message::RootSubmitted => self.on_root_submitted(),
            Message::QuickRootSelected(index) => self.on_quick_root(index, generation),
            Message::EditTitle => self.on_edit_title(),
            Message::TitleEditCancelled => self.on_title_edit_cancelled(),
            Message::FolderPicked(path) => self.on_folder_picked(path, generation),
            Message::FolderPickCancelled => {
                proof {
                    reveal(step);
                }
                effects(Action::Nothing)
            },
            Message::FolderPickError(err) => self.on_folder_pick_error(err),
            Message::OpenInFiles(path) => {
                proof {
                    reveal(step);
                }
                effects(Action::OpenInFiles(path))
            },
            Message::RenameRequested(path) => self.on_rename_requested(path),
            Message::RenameInputChanged(value) => self.on_rename_input(value),
            Message::RenameConfirmed => self.on_rename_confirmed(),
            Message::RenameCancelled => self.on_rename_cancelled(),
            Message::RenameCompleted(from, to, result) => self.on_rename_completed(from, to, result),
            Message::SaveIndex => self.on_save_index(),
            Message::SaveIndexCompleted(result) => self.on_save_index_completed(result),
            Message::SavedIndexChecked(saved) => self.on_saved_index_checked(saved),
        }
    }

    /// Finishes a typed root: scans `candidate` under `generation` when it is
    /// a directory, and reports "not a directory" otherwise.
    pub fn root_checked(&mut self, candidate: FsPath, text: String, is_dir: bool, generation: u64) -> (fx:
        Effects)
        requires
            wf(old(self)@),
        ensures
            (final(self)@, fx@) == root_checked_step(
                old(self)@,
                candidate@,
                candidate.text@,
                text@,
                is_dir,
                generation as nat,
            ),
            wf(final(self)@),
    {
        if is_dir {
            self.begin_scan(candidate, generation)
        } else {
            self.last_error = Some(text3("not a directory: ", text.as_str(), ""));
            proof {
                reveal_strlit("");
                assert(self@ =~= root_checked_step(
                    old(self)@,
                    candidate@,
                    candidate.text@,
                    text@,
                    is_dir,
                    generation as nat,
                ).0);
            }
            effects(Action::Nothing)
        }
    }
}

} // verus!
