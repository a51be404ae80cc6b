use vstd::prelude::*;
use crate::entry::Entry;

verus! {

/// The save-file format this build writes and reads.
pub const INDEX_FORMAT_VERSION: u32 = 1;

/// Name of the save file inside a root's saved-index folder.
pub const INDEX_FILE_NAME: &'static str = "index.bin";

/// An on-disk snapshot of a scan, saved under `<root>/.costree/index.bin`
/// so it can be reloaded later without rescanning.
pub struct SavedIndex {
    /// The save-file format the snapshot is in.
    pub version: u32,
    /// Unix timestamp (seconds) of when this snapshot was saved.
    pub scanned_at: u64,
    pub root: Entry,
}

impl SavedIndex {
    /// A snapshot of `root` taken at `scanned_at`, in the current format.
    pub fn new(root: Entry, scanned_at: u64) -> (s: SavedIndex)
        ensures
            s.version == INDEX_FORMAT_VERSION,
            s.scanned_at == scanned_at,
            s.root.model() == root.model(),
    {
        SavedIndex { version: INDEX_FORMAT_VERSION, scanned_at, root }
    }

    /// A snapshot as read back from a save file, in whatever format it
    /// declares.
    pub fn from_parts(version: u32, scanned_at: u64, root: Entry) -> (s: SavedIndex)
        ensures
            s.version == version,
            s.scanned_at == scanned_at,
            s.root.model() == root.model(),
    {
        SavedIndex { version, scanned_at, root }
    }

    /// The snapshot if it is in the current format, `None` otherwise (an
    /// outdated save falls back to a fresh scan).
    pub fn current(self) -> (r: Option<SavedIndex>)
        ensures
            r is Some <==> self.version == INDEX_FORMAT_VERSION,
            r matches Some(s) ==> s.scanned_at == self.scanned_at && s.root.model()
                == self.root.model() && s.version == self.version,
    {
        if self.version == INDEX_FORMAT_VERSION {
            Some(self)
        } else {
            None
        }
    }
}

impl Clone for SavedIndex {
    fn clone(&self) -> (r: Self)
        ensures
            r.version == self.version,
            r.scanned_at == self.scanned_at,
            r.root.model() == self.root.model(),
    {
        SavedIndex { version: self.version, scanned_at: self.scanned_at, root: self.root.clone() }
    }
}

} // verus!
