use vstd::prelude::*;
use crate::path::FsPath;

verus! {

/// What background scans share: the current scan generation and the
/// directory most recently entered by a scan.
///
/// A scan is started with the generation current at that moment and gives
/// up as soon as the generation has moved on; bumping the generation is how
/// every scan in flight is cancelled at once.
pub struct ScanStatus {
    generation: u64,
    path: Option<FsPath>,
}

impl ScanStatus {
    /// The generation currently in force.
    pub closed spec fn generation_spec(&self) -> nat {
        self.generation as nat
    }

    /// The directory on show in the status bar, if any.
    pub closed spec fn path_spec(&self) -> Option<FsPath> {
        self.path
    }

    /// Nothing scanning yet: generation 0 and no directory.
    pub fn new() -> (s: ScanStatus)
        ensures
            s.generation_spec() == 0,
            s.path_spec() is None,
    {
        ScanStatus { generation: 0, path: None }
    }

    /// The directory most recently entered by a background scan, for display
    /// in the status bar. `None` when nothing is scanning.
    pub fn current_scan_path(&self) -> (r: Option<FsPath>)
        ensures
            r is None <==> self.path_spec() is None,
            r matches Some(p) ==> p@ == self.path_spec()->0@,
    {
        match &self.path {
            Some(p) => Some(p.clone()),
            None => None,
        }
    }

    /// Forgets the directory on show.
    pub fn clear_current_scan_path(&mut self)
        ensures
            final(self).path_spec() is None,
            final(self).generation_spec() == old(self).generation_spec(),
    {
        self.path = None;
    }

    /// Records that a scan has entered the directory `path`.
    pub fn set_current_scan_path(&mut self, path: FsPath)
        ensures
            final(self).path_spec() == Some(path),
            final(self).generation_spec() == old(self).generation_spec(),
    {
        self.path = Some(path);
    }

    /// The generation currently in force.
    pub fn current_generation(&self) -> (g: u64)
        ensures
            g == self.generation_spec(),
    {
        self.generation
    }

    /// Starts a new scan generation, invalidating any scan already in
    /// flight. Returns the new generation id to pass to a scan.
    pub fn next_generation(&mut self) -> (g: u64)
        requires
            old(self).generation_spec() < u64::MAX,
        ensures
            g == old(self).generation_spec() + 1,
            final(self).generation_spec() == g,
            final(self).path_spec() == old(self).path_spec(),
    {
        self.generation = self.generation + 1;
        self.generation
    }

    /// Whether a scan started with `generation` must stop: the generation
    /// has moved on since.
    pub open spec fn stale(&self, generation: nat) -> bool {
        generation != self.generation_spec()
    }

    /// Whether a scan started with `generation` must stop.
    pub fn is_stale(&self, generation: u64) -> (r: bool)
        ensures
            r == self.stale(generation as nat),
    {
        self.generation != generation
    }
}

/// Bumping the generation cancels every scan in flight: a scan started with
/// any generation handed out before the bump is stale after it, while the
/// scan started with the new generation is not.
pub proof fn lemma_next_generation_cancels(earlier: ScanStatus, later: ScanStatus, started: nat)
    requires
        later.generation_spec() == earlier.generation_spec() + 1,
        started <= earlier.generation_spec(),
    ensures
        later.stale(started),
        !later.stale(later.generation_spec()),
{
}

} // verus!
