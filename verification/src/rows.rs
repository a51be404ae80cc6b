use vstd::prelude::*;
use crate::path::{FsPath, PathModel};
use crate::entry::{Entry, EntryModel, models, lemma_children_models};
use crate::pathset::PathSet;
use crate::format::{human_size, human_size_text};

verus! {

/// While searching, every matching branch is force-expanded so results are
/// visible without manual clicking. A broad query on a huge tree can match
/// a large fraction of it; this bounds how many rows are built regardless
/// of how many entries actually match.
pub const MAX_SEARCH_RESULTS: usize = 1000;

/// One visible line of the tree view.
pub struct Row {
    pub path: FsPath,
    pub name: String,
    /// Nesting level; the root is at 0.
    pub depth: usize,
    pub is_dir: bool,
    /// Whether the row's directory is shown open.
    pub is_expanded: bool,
    pub is_selected: bool,
    /// A directory whose contents are not scanned yet.
    pub unscanned: bool,
    /// The size as shown; empty for an unscanned directory.
    pub size_text: String,
}

/// Abstract value of a row.
pub struct RowView {
    pub path: PathModel,
    pub name: Seq<char>,
    pub depth: nat,
    pub is_dir: bool,
    pub is_expanded: bool,
    pub is_selected: bool,
    pub unscanned: bool,
    pub size_text: Seq<char>,
}

impl View for Row {
    type V = RowView;

    open spec fn view(&self) -> RowView {
        RowView {
            path: self.path@,
            name: self.name@,
            depth: self.depth as nat,
            is_dir: self.is_dir,
            is_expanded: self.is_expanded,
            is_selected: self.is_selected,
            unscanned: self.unscanned,
            size_text: self.size_text@,
        }
    }
}

pub open spec fn rows_view(s: Seq<Row>) -> Seq<RowView> {
    Seq::new(s.len(), |i: int| s[i]@)
}

/// What the view shows rows under: which folders are open, which path is
/// selected, whether dotfiles are hidden, and the search matches if a
/// search is active.
pub struct RowContext {
    pub expanded: Set<PathModel>,
    pub selected: Option<PathModel>,
    pub hide_dotfiles: bool,
    pub matches: Option<Set<PathModel>>,
}

pub open spec fn next_depth(depth: nat) -> nat {
    if depth < usize::MAX {
        depth + 1
    } else {
        depth
    }
}

/// The row `m` is shown as at `depth`.
pub open spec fn row_of(m: EntryModel, depth: nat, ctx: RowContext) -> RowView {
    let unscanned = m.is_dir && !m.scanned;
    RowView {
        path: m.path,
        name: m.name,
        depth,
        is_dir: m.is_dir,
        is_expanded: ctx.matches is Some || ctx.expanded.contains(m.path),
        is_selected: ctx.selected == Some(m.path),
        unscanned,
        size_text: if unscanned {
            Seq::empty()
        } else {
            human_size_text(m.size)
        },
    }
}

/// Whether `m` is left out of the view when `count` rows are shown
/// already: a dotfile below the root while dotfiles are hidden, or, while
/// searching, an entry off the search matches or past the row cap.
pub open spec fn hidden(m: EntryModel, depth: nat, ctx: RowContext, count: nat) -> bool {
    ||| (ctx.hide_dotfiles && depth > 0 && m.name.len() > 0 && m.name[0] == '.')
    ||| (ctx.matches matches Some(ms) && (!ms.contains(m.path) || count >= MAX_SEARCH_RESULTS))
}

/// The rows the subtree of `m` adds at `depth` after `count` rows: its own
/// row, then, when it is an open directory, the rows of its children.
pub open spec fn rows_of(m: EntryModel, depth: nat, ctx: RowContext, count: nat) -> Seq<RowView>
    decreases m, 0int,
{
    if hidden(m, depth, ctx, count) {
        Seq::empty()
    } else {
        let row = row_of(m, depth, ctx);
        if m.is_dir && row.is_expanded {
            seq![row] + rows_from(m.children, 0, next_depth(depth), ctx, count + 1)
        } else {
            seq![row]
        }
    }
}

/// The rows the subtrees of `s[k..]` add, one after the other.
pub open spec fn rows_from(s: Seq<EntryModel>, k: int, depth: nat, ctx: RowContext, count: nat) -> Seq<
    RowView,
>
    decreases s, s.len() - k,
{
    if k < 0 || k >= s.len() {
        Seq::empty()
    } else {
        let r = rows_of(s[k], depth, ctx, count);
        r + rows_from(s, k + 1, depth, ctx, count + r.len())
    }
}

/// Law: outside a search, an entry not hidden as a dotfile is shown as a
/// row at its own depth, open exactly when its path is among the open
/// folders, at any depth. An open directory's row is followed directly by
/// the rows of its children one level deeper, starting with its first
/// child's row when that child is shown; any other entry gives one row.
pub proof fn lemma_open_folders_show_their_children(
    m: EntryModel,
    depth: nat,
    ctx: RowContext,
    count: nat,
)
    requires
        ctx.matches is None,
        depth < usize::MAX,
        !(ctx.hide_dotfiles && depth > 0 && m.name.len() > 0 && m.name[0] == '.'),
    ensures
        rows_of(m, depth, ctx, count).len() >= 1,
        rows_of(m, depth, ctx, count)[0].path == m.path,
        rows_of(m, depth, ctx, count)[0].depth == depth,
        rows_of(m, depth, ctx, count)[0].is_expanded == ctx.expanded.contains(m.path),
        m.is_dir && ctx.expanded.contains(m.path) ==> rows_of(m, depth, ctx, count) == seq![
            rows_of(m, depth, ctx, count)[0],
        ] + rows_from(m.children, 0, depth + 1, ctx, count + 1),
        m.is_dir && ctx.expanded.contains(m.path) && m.children.len() > 0 && !(ctx.hide_dotfiles
            && m.children[0].name.len() > 0 && m.children[0].name[0] == '.') ==> {
            &&& rows_of(m, depth, ctx, count).len() >= 2
            &&& rows_of(m, depth, ctx, count)[1].path == m.children[0].path
            &&& rows_of(m, depth, ctx, count)[1].depth == depth + 1
        },
        !(m.is_dir && ctx.expanded.contains(m.path)) ==> rows_of(m, depth, ctx, count).len() == 1,
{
    let r = rows_of(m, depth, ctx, count);
    if m.is_dir && ctx.expanded.contains(m.path) && m.children.len() > 0 && !(ctx.hide_dotfiles
        && m.children[0].name.len() > 0 && m.children[0].name[0] == '.') {
        let c = m.children[0];
        let first = rows_of(c, depth + 1, ctx, count + 1);
        assert(!hidden(c, depth + 1, ctx, count + 1));
        assert(first.len() >= 1);
        assert(first[0] == row_of(c, depth + 1, ctx));
        let rest = rows_from(m.children, 0, depth + 1, ctx, count + 1);
        assert(rest == first + rows_from(m.children, 1, depth + 1, ctx, count + 1 + first.len()));
        assert(rest[0] == first[0]);
        assert(r[1] == rest[0]);
    }
}

pub open spec fn opt_path(p: Option<FsPath>) -> Option<PathModel> {
    match p {
        Some(q) => Some(q@),
        None => None,
    }
}

/// Flattens the visible part of the subtree of `entry` (respecting which
/// directories are open) into `rows`.
fn render_entry(
    entry: &Entry,
    depth: usize,
    expanded: &PathSet,
    selected: &Option<FsPath>,
    hide_dotfiles: bool,
    matches: &Option<PathSet>,
    rows: &mut Vec<Row>,
)
    ensures
        rows_view(final(rows)@) == rows_view(old(rows)@) + rows_of(
            entry.model(),
            depth as nat,
            RowContext {
                expanded: expanded@,
                selected: opt_path(*selected),
                hide_dotfiles,
                matches: match matches {
                    Some(m) => Some(m@),
                    None => None,
                },
            },
            old(rows)@.len(),
        ),
    decreases entry.model(),
{
    let ghost ctx = RowContext {
        expanded: expanded@,
        selected: opt_path(*selected),
        hide_dotfiles,
        matches: match matches {
            Some(m) => Some(m@),
            None => None,
        },
    };
    let ghost m = entry.model();
    let ghost start = rows_view(rows@);
    let ghost count = rows@.len();
    if hide_dotfiles && depth > 0 && entry.name.as_str().unicode_len() > 0
        && entry.name.as_str().get_char(0) == '.' {
        proof {
            assert(rows_of(m, depth as nat, ctx, count) =~= Seq::<RowView>::empty());
            assert(rows_view(rows@) =~= start + Seq::<RowView>::empty());
        }
        return ;
    }
    match matches {
        Some(ms) => {
            if !ms.contains(&entry.path) || rows.len() >= MAX_SEARCH_RESULTS {
                proof {
                    assert(rows_of(m, depth as nat, ctx, count) =~= Seq::<RowView>::empty());
                    assert(rows_view(rows@) =~= start + Seq::<RowView>::empty());
                }
                return ;
            }
        },
        None => {},
    }
    let is_expanded = matches.is_some() || expanded.contains(&entry.path);
    let is_selected = match selected {
        Some(p) => p.same_as(&entry.path),
        None => false,
    };
    let unscanned = entry.is_dir && !entry.scanned;
    let size_text = if unscanned {
        String::new()
    } else {
        human_size(entry.size)
    };
    let row = Row {
        path: entry.path.clone(),
        name: entry.name.clone(),
        depth,
        is_dir: entry.is_dir,
        is_expanded,
        is_selected,
        unscanned,
        size_text,
    };
    proof {
        assert(row@ == row_of(m, depth as nat, ctx));
    }
    rows.push(row);
    proof {
        assert(rows_view(rows@) =~= start + seq![row@]);
    }
    if entry.is_dir && is_expanded {
        proof {
            lemma_children_models(entry);
        }
        let ghost ms = models(entry.children@);
        let next = depth.saturating_add(1);
        let n = entry.children.len();
        let mut i: usize = 0;
        while i < n
            invariant
                i <= n,
                n == ms.len(),
                ms == models(entry.children@),
                m == entry.model(),
                m.children == ms,
                next as nat == next_depth(depth as nat),
                ctx == (RowContext {
                    expanded: expanded@,
                    selected: opt_path(*selected),
                    hide_dotfiles,
                    matches: match matches {
                        Some(mm) => Some(mm@),
                        None => None,
                    },
                }),
                rows_view(rows@) + rows_from(ms, i as int, next as nat, ctx, rows@.len())
                    == start + seq![row_of(m, depth as nat, ctx)] + rows_from(
                    ms,
                    0,
                    next as nat,
                    ctx,
                    count + 1,
                ),
            decreases n - i,
        {
            let ghost before = rows_view(rows@);
            let ghost c = rows@.len();
            proof {
                assert(ms[i as int] == entry.children@[i as int].model());
                assert(decreases_to!(m => m.children));
                assert(decreases_to!(m.children => m.children[i as int]));
            }
            render_entry(&entry.children[i], next, expanded, selected, hide_dotfiles, matches, rows);
            proof {
                let r = rows_of(ms[i as int], next as nat, ctx, c);
                assert(rows_view(rows@) == before + rows_of(entry.children@[i as int].model(), next as nat, ctx, c));
                assert(rows_view(rows@) == before + r);
                assert(rows@.len() == c + r.len());
                assert(rows_from(ms, i as int, next as nat, ctx, c) == r + rows_from(
                    ms,
                    i + 1,
                    next as nat,
                    ctx,
                    c + r.len(),
                ));
                assert(rows_view(rows@) + rows_from(ms, i + 1, next as nat, ctx, rows@.len())
                    =~= before + rows_from(ms, i as int, next as nat, ctx, c));
            }
            i = i + 1;
        }
        proof {
            assert(rows_from(ms, n as int, next as nat, ctx, rows@.len()) =~= Seq::<RowView>::empty());
            assert(rows_view(rows@) =~= rows_view(rows@) + rows_from(ms, n as int, next as nat, ctx, rows@.len()));
            assert(rows_of(m, depth as nat, ctx, count) == seq![row_of(m, depth as nat, ctx)]
                + rows_from(ms, 0, next as nat, ctx, count + 1));
            assert(rows_view(rows@) =~= start + rows_of(m, depth as nat, ctx, count));
        }
    } else {
        proof {
            assert(rows_of(m, depth as nat, ctx, count) == seq![row_of(m, depth as nat, ctx)]);
        }
    }
}

/// The rows of the tree view for `root`: only open directories show their
/// children; dotfiles below the root are left out when `hide_dotfiles`;
/// while searching, only matches (and their ancestors, which the match set
/// holds) are shown, every directory open, at most `MAX_SEARCH_RESULTS`
/// rows.
pub fn visible_rows(
    root: &Entry,
    expanded: &PathSet,
    selected: &Option<FsPath>,
    hide_dotfiles: bool,
    matches: &Option<PathSet>,
) -> (rows: Vec<Row>)
    ensures
        rows_view(rows@) == rows_of(
            root.model(),
            0,
            RowContext {
                expanded: expanded@,
                selected: opt_path(*selected),
                hide_dotfiles,
                matches: match matches {
                    Some(m) => Some(m@),
                    None => None,
                },
            },
            0,
        ),
{
    let mut rows: Vec<Row> = Vec::new();
    render_entry(root, 0, expanded, selected, hide_dotfiles, matches, &mut rows);
    proof {
        assert(rows_view(Seq::<Row>::empty()) =~= Seq::<RowView>::empty());
        assert(rows_view(rows@) =~= Seq::<RowView>::empty() + rows_of(
            root.model(),
            0,
            RowContext {
                expanded: expanded@,
                selected: opt_path(*selected),
                hide_dotfiles,
                matches: match matches {
                    Some(m) => Some(m@),
                    None => None,
                },
            },
            0,
        ));
    }
    rows
}

/// What the filters allow of a shown row: with dotfiles hidden, no dot
/// name below the root; while searching, only paths among the matches.
pub open spec fn row_allowed(r: RowView, ctx: RowContext) -> bool {
    &&& (ctx.hide_dotfiles && r.depth > 0 ==> !(r.name.len() > 0 && r.name[0] == '.'))
    &&& (ctx.matches matches Some(ms) ==> ms.contains(r.path))
}

/// Law: the tree view respects its filters. With dotfiles hidden no row
/// below the root shows a dot name; while searching every row is a match
/// (or an ancestor of one, which the match set holds), and at most
/// `MAX_SEARCH_RESULTS` rows are built however many entries match.
pub proof fn lemma_rows_respect_filters(m: EntryModel, ctx: RowContext)
    ensures
        forall|i: int|
            0 <= i < rows_of(m, 0, ctx, 0).len() ==> row_allowed(
                #[trigger] rows_of(m, 0, ctx, 0)[i],
                ctx,
            ),
        ctx.matches is Some ==> rows_of(m, 0, ctx, 0).len() <= MAX_SEARCH_RESULTS,
{
    lemma_rows_of_allowed(m, 0, ctx, 0);
}

proof fn lemma_rows_of_allowed(m: EntryModel, depth: nat, ctx: RowContext, count: nat)
    ensures
        forall|i: int|
            0 <= i < rows_of(m, depth, ctx, count).len() ==> row_allowed(
                #[trigger] rows_of(m, depth, ctx, count)[i],
                ctx,
            ),
        ctx.matches is Some && count <= MAX_SEARCH_RESULTS ==> count + rows_of(
            m,
            depth,
            ctx,
            count,
        ).len() <= MAX_SEARCH_RESULTS,
    decreases m, 0int,
{
    if !hidden(m, depth, ctx, count) {
        let row = row_of(m, depth, ctx);
        assert(row_allowed(row, ctx));
        if m.is_dir && row.is_expanded {
            assert(decreases_to!(m => m.children));
            lemma_rows_from_allowed(m.children, 0, next_depth(depth), ctx, count + 1);
            let rest = rows_from(m.children, 0, next_depth(depth), ctx, count + 1);
            let all = rows_of(m, depth, ctx, count);
            assert(all == seq![row] + rest);
            assert forall|i: int| 0 <= i < all.len() implies row_allowed(#[trigger] all[i], ctx) by {
                if i > 0 {
                    assert(all[i] == rest[i - 1]);
                }
            }
        }
    }
}

proof fn lemma_rows_from_allowed(
    s: Seq<EntryModel>,
    k: int,
    depth: nat,
    ctx: RowContext,
    count: nat,
)
    ensures
        forall|i: int|
            0 <= i < rows_from(s, k, depth, ctx, count).len() ==> row_allowed(
                #[trigger] rows_from(s, k, depth, ctx, count)[i],
                ctx,
            ),
        ctx.matches is Some && count <= MAX_SEARCH_RESULTS ==> count + rows_from(
            s,
            k,
            depth,
            ctx,
            count,
        ).len() <= MAX_SEARCH_RESULTS,
    decreases s, s.len() - k,
{
    if 0 <= k < s.len() {
        assert(decreases_to!(s => s[k]));
        let r = rows_of(s[k], depth, ctx, count);
        lemma_rows_of_allowed(s[k], depth, ctx, count);
        lemma_rows_from_allowed(s, k + 1, depth, ctx, count + r.len());
        let rest = rows_from(s, k + 1, depth, ctx, count + r.len());
        let all = rows_from(s, k, depth, ctx, count);
        assert(all == r + rest);
        assert forall|i: int| 0 <= i < all.len() implies row_allowed(#[trigger] all[i], ctx) by {
            if i < r.len() {
                assert(all[i] == r[i]);
            } else {
                assert(all[i] == rest[i - r.len()]);
            }
        }
    }
}

} // verus!
