use vstd::prelude::*;
use vstd::string::*;
use crate::path::{FsPath, PathModel};
use crate::entry::find_entry;
use crate::app::{AppModel, AppView, Message, is_dir_in};
use crate::rows::{Row, RowContext, rows_of, rows_view, visible_rows};
use crate::text::{decimal, push_decimal};

verus! {

/// A key the window reacts to.
pub enum Key {
    F5,
    Delete,
    Other,
}

/// The message a key press sends: F5 rescans, Delete asks to delete the
/// selection; a key already taken by a widget sends nothing.
pub fn key_message(captured: bool, key: Key) -> (r: Option<Message>)
    ensures
        captured ==> r is None,
        !captured ==> match key {
            Key::F5 => r matches Some(Message::Rescan),
            Key::Delete => r matches Some(Message::DeleteRequested),
            Key::Other => r is None,
        },
{
    if captured {
        return None;
    }
    match key {
        Key::F5 => Some(Message::Rescan),
        Key::Delete => Some(Message::DeleteRequested),
        Key::Other => None,
    }
}

/// The dialog the window shows over the tree.
pub enum Dialog {
    /// Confirm deleting this path; the flag says whether it is a folder.
    ConfirmDelete(FsPath, bool),
    /// Edit the new name of the entry being renamed.
    Rename(String),
    Nothing,
}

/// The text of the status line: the listing, the scan (naming the folder
/// the last background scan visited, when known), or idle.
pub open spec fn status_text(s: AppView, current: Option<Seq<char>>) -> Seq<char> {
    if s.listing {
        "Listing directory…"@
    } else if s.pending_branches > 0 {
        match current {
            Some(p) => "Scanning "@ + p,
            None => "Scanning…"@,
        }
    } else {
        "Idle"@
    }
}

/// What the main area of the window shows.
pub enum Body {
    /// The top level is still being listed and nothing is shown yet.
    Listing,
    /// The rows of the tree, with the note shown under them when a search
    /// matched more entries than there are rows.
    Tree(Vec<Row>, Option<String>),
    /// Nothing is scanned.
    NoData,
}

/// The note under the rows when a search matched more entries than the
/// `shown` rows.
pub open spec fn more_matches_note(shown: nat) -> Seq<char> {
    "Showing the first "@ + decimal(shown) + " matches — refine your search to see more."@
}

/// How the rows of the tree are filtered in the state `s`.
pub open spec fn row_context(s: AppView) -> RowContext {
    RowContext {
        expanded: s.expanded,
        selected: s.selected,
        hide_dotfiles: s.hide_dotfiles,
        matches: s.search_results,
    }
}

/// The note under `shown` rows: present only while a search has matched
/// more entries than that.
pub open spec fn note_for(matches: Option<Set<PathModel>>, shown: nat) -> Option<Seq<char>> {
    match matches {
        Some(m) => if m.len() > shown {
            Some(more_matches_note(shown))
        } else {
            None
        },
        None => None,
    }
}

impl AppModel {
    /// What the main area shows: the listing notice while the top level is
    /// listed and nothing is shown yet, else the rows of the tree with the
    /// note on further matches, or that there is no data.
    pub fn body(&self) -> (b: Body)
        ensures
            self@.listing && self@.root is None ==> b is Listing,
            !(self@.listing && self@.root is None) ==> match self@.root {
                Some(r) => b matches Body::Tree(rows, note) && rows_view(rows@) == rows_of(
                    r,
                    0,
                    row_context(self@),
                    0,
                ) && match note_for(self@.search_results, rows@.len() as nat) {
                    Some(t) => note matches Some(n) && n@ == t,
                    None => note is None,
                },
                None => b is NoData,
            },
    {
        if self.listing && self.root.is_none() {
            return Body::Listing;
        }
        match &self.root {
            Some(root) => {
                let rows = visible_rows(
                    root,
                    &self.expanded,
                    &self.selected,
                    self.hide_dotfiles,
                    &self.search_results,
                );
                let shown = rows.len();
                let note = match &self.search_results {
                    Some(m) => if m.len() > shown {
                        proof {
                            reveal_strlit("Showing the first ");
                            reveal_strlit(" matches — refine your search to see more.");
                        }
                        let mut t = String::from_str("Showing the first ");
                        push_decimal(&mut t, shown as u64);
                        t.append(" matches — refine your search to see more.");
                        Some(t)
                    } else {
                        None
                    },
                    None => None,
                };
                Body::Tree(rows, note)
            },
            None => Body::NoData,
        }
    }

    /// Whether a scan (the listing or a background branch) is in flight.
    pub fn is_scanning(&self) -> (r: bool)
        ensures
            r == (self@.listing || self@.pending_branches > 0),
    {
        self.listing || self.pending_branches > 0
    }

    /// Whether the selection may be deleted: something other than the scan
    /// root is selected.
    pub fn can_delete(&self) -> (r: bool)
        ensures
            r == (self@.selected matches Some(p) && p != self@.scan_root),
    {
        match &self.selected {
            Some(p) => !p.same_as(&self.scan_root),
            None => false,
        }
    }

    /// The text of the status line; `current` is the folder the last
    /// background scan visited, if known.
    pub fn status_text(&self, current: &Option<FsPath>) -> (r: String)
        ensures
            r@ == status_text(
                self@,
                match current {
                    Some(p) => Some(p.text@),
                    None => None,
                },
            ),
    {
        proof {
            reveal_strlit("Listing directory…");
            reveal_strlit("Scanning ");
            reveal_strlit("Scanning…");
            reveal_strlit("Idle");
        }
        if self.listing {
            String::from_str("Listing directory…")
        } else if self.pending_branches > 0 {
            match current {
                Some(p) => {
                    let mut out = String::from_str("Scanning ");
                    out.append(p.text.as_str());
                    out
                },
                None => String::from_str("Scanning…"),
            }
        } else {
            String::from_str("Idle")
        }
    }

    /// The dialog to show: a pending delete comes first, then a rename.
    pub fn dialog(&self) -> (d: Dialog)
        ensures
            match self@.confirm_delete {
                Some(p) => d matches Dialog::ConfirmDelete(q, is_dir) && q@ == p && is_dir
                    == is_dir_in(self@.root, p),
                None => match self@.rename_target {
                    Some(t) => d matches Dialog::Rename(name) && name@ == t.1,
                    None => d is Nothing,
                },
            },
    {
        match &self.confirm_delete {
            Some(path) => {
                let is_dir = match &self.root {
                    Some(r) => match find_entry(r, path) {
                        Some(e) => e.is_dir,
                        None => false,
                    },
                    None => false,
                };
                Dialog::ConfirmDelete(path.clone(), is_dir)
            },
            None => match &self.rename_target {
                Some(t) => Dialog::Rename(t.1.clone()),
                None => Dialog::Nothing,
            },
        }
    }
}

} // verus!
