use vstd::prelude::*;
use crate::path::{FsPath, PathModel, file_name};
use crate::entry::{
    Entry, EntryModel, file_entry, directory_entry, is_index_dir, is_index_dir_path,
    checked_total, models, sum_sizes, file_model, dir_model,
};
use crate::status::ScanStatus;

verus! {

/// What reading one path found: whether it is a directory (symbolic links
/// are not followed), its size when it is not, and, for a directory, the
/// paths of its entries in the order they were read.
pub struct Seen {
    pub is_dir: bool,
    pub size: u64,
    pub children: Vec<FsPath>,
}

/// Abstract value of a read.
pub struct SeenModel {
    pub is_dir: bool,
    pub size: nat,
    pub children: Seq<PathModel>,
}

/// The abstract values of a run of paths.
pub open spec fn paths_of(s: Seq<FsPath>) -> Seq<PathModel> {
    Seq::new(s.len(), |i: int| s[i]@)
}

pub open spec fn seen_model(s: Seen) -> SeenModel {
    SeenModel { is_dir: s.is_dir, size: s.size as nat, children: paths_of(s.children@) }
}

/// The paths of `ps` other than saved-index folders, in order.
pub open spec fn kept_paths(ps: Seq<PathModel>) -> Seq<PathModel>
    decreases ps.len(),
{
    if ps.len() == 0 {
        ps
    } else if is_index_dir_path(ps.last()) {
        kept_paths(ps.drop_last())
    } else {
        kept_paths(ps.drop_last()).push(ps.last())
    }
}

/// Law: a scan leaves out exactly the entries named `.costree`: a path
/// with any other file name (a dot-name included) is kept after those
/// before it, and one named `.costree` is dropped.
pub proof fn lemma_scan_skips_only_the_save_folder(ps: Seq<PathModel>, p: PathModel)
    ensures
        file_name(p) != Some(".costree"@) ==> kept_paths(ps.push(p)) == kept_paths(ps).push(p),
        file_name(p) == Some(".costree"@) ==> kept_paths(ps.push(p)) == kept_paths(ps),
{
    assert(ps.push(p).drop_last() =~= ps);
    assert(crate::entry::INDEX_DIR_NAME@ == ".costree"@);
}

/// How scanning goes on a run of reads: the entries scanned with the number
/// of reads they took, the next path to read when the reads run out, or
/// overflow when a directory's sizes add up past a `u64`.
pub enum Scanned {
    Done(Seq<EntryModel>, nat),
    Need(PathModel),
    Overflow,
}

/// The directory at `p` holding `ch`, when their sizes fit a `u64`.
pub open spec fn close_dir(p: PathModel, ch: Seq<EntryModel>) -> Option<EntryModel> {
    if sum_sizes(ch) <= u64::MAX {
        Some(dir_model(p, ch, true))
    } else {
        None
    }
}

/// Scanning the path `p` with the reads `reads`, the first of which is the
/// read of `p`: a file carries the size read; a directory holds its listed
/// entries other than saved-index folders, each scanned in turn with the
/// reads that follow, ordered largest-first with their sizes summed.
pub open spec fn scan_from(p: PathModel, reads: Seq<SeenModel>) -> Scanned
    decreases reads.len(), 0int,
{
    if reads.len() == 0 {
        Scanned::Need(p)
    } else if !reads[0].is_dir {
        Scanned::Done(seq![file_model(p, reads[0].size)], 1)
    } else {
        match scan_list(kept_paths(reads[0].children), reads.drop_first()) {
            Scanned::Done(ch, m) => match close_dir(p, ch) {
                Some(d) => Scanned::Done(seq![d], m + 1),
                None => Scanned::Overflow,
            },
            other => other,
        }
    }
}

/// Scanning the paths `ps` one after the other with the reads `reads`.
pub open spec fn scan_list(ps: Seq<PathModel>, reads: Seq<SeenModel>) -> Scanned
    decreases reads.len(), ps.len() + 1,
{
    if ps.len() == 0 {
        Scanned::Done(Seq::empty(), 0)
    } else {
        match scan_from(ps[0], reads) {
            Scanned::Done(first, n) => if n <= reads.len() {
                match scan_list(ps.drop_first(), reads.skip(n as int)) {
                    Scanned::Done(rest, m) => Scanned::Done(first + rest, n + m),
                    other => other,
                }
            } else {
                Scanned::Overflow
            },
            other => other,
        }
    }
}

/// The outcome of scanning `root` with the reads so far.
pub open spec fn scanned_model(root: PathModel, reads: Seq<SeenModel>) -> Scanned {
    scan_from(root, reads)
}

/// `o` with `k` more reads counted.
spec fn shift(k: nat, o: Scanned) -> Scanned {
    match o {
        Scanned::Done(x, n) => Scanned::Done(x, n + k),
        other => other,
    }
}

/// Abstract value of a directory being scanned.
struct FrameModel {
    path: PathModel,
    done: Seq<EntryModel>,
    todo: Seq<PathModel>,
}

/// How the scan ends once the entry `e` at the top of `frames` is done,
/// with the reads `rest` still to come.
spec fn resume(frames: Seq<FrameModel>, e: EntryModel, rest: Seq<SeenModel>) -> Scanned
    decreases frames.len(),
{
    if frames.len() == 0 {
        Scanned::Done(seq![e], 0)
    } else {
        let top = frames.last();
        match scan_list(top.todo, rest) {
            Scanned::Done(more, m) => if m <= rest.len() {
                match close_dir(top.path, top.done.push(e) + more) {
                    Some(d) => shift(m, resume(frames.drop_last(), d, rest.skip(m as int))),
                    None => Scanned::Overflow,
                }
            } else {
                Scanned::Overflow
            },
            other => other,
        }
    }
}

/// How the scan ends once the path `q` is read, with the reads `rest`
/// still to come (the first of which is the read of `q`).
spec fn cont(frames: Seq<FrameModel>, q: PathModel, rest: Seq<SeenModel>) -> Scanned {
    match scan_from(q, rest) {
        Scanned::Done(es, n) => if n <= rest.len() {
            shift(n, resume(frames, es[0], rest.skip(n as int)))
        } else {
            Scanned::Overflow
        },
        other => other,
    }
}

proof fn lemma_scan_counts(p: PathModel, reads: Seq<SeenModel>)
    ensures
        scan_from(p, reads) matches Scanned::Done(es, n) ==> es.len() == 1 && 1 <= n <= reads.len(),
    decreases reads.len(), 0int,
{
    if reads.len() > 0 && reads[0].is_dir {
        lemma_list_counts(kept_paths(reads[0].children), reads.drop_first());
    }
}

proof fn lemma_list_counts(ps: Seq<PathModel>, reads: Seq<SeenModel>)
    ensures
        scan_list(ps, reads) matches Scanned::Done(es, n) ==> es.len() == ps.len() && n
            <= reads.len(),
    decreases reads.len(), ps.len() + 1,
{
    if ps.len() > 0 {
        lemma_scan_counts(ps[0], reads);
        if let Scanned::Done(first, n) = scan_from(ps[0], reads) {
            if n <= reads.len() {
                assert(reads.skip(n as int).len() == reads.len() - n);
                lemma_list_counts(ps.drop_first(), reads.skip(n as int));
            }
        }
    }
}

proof fn lemma_shift_shift(a: nat, b: nat, o: Scanned)
    ensures
        shift(a, shift(b, o)) == shift(a + b, o),
        shift(0, o) == o,
{
}

/// The scan of `root` with the reads `trace` followed by any further reads
/// goes on as reading `q` would, within the directories `frames`.
spec fn waiting_inv(root: PathModel, trace: Seq<SeenModel>, frames: Seq<FrameModel>, q: PathModel) -> bool {
    forall|f: Seq<SeenModel>|
        #[trigger] scan_from(root, trace + f) == shift(trace.len(), cont(frames, q, f))
}

/// The scan of `root` with the reads `trace` followed by any further reads
/// goes on as finishing the entry `e` within the directories `frames`.
spec fn settle_inv(root: PathModel, trace: Seq<SeenModel>, frames: Seq<FrameModel>, e: EntryModel) -> bool {
    forall|f: Seq<SeenModel>|
        #[trigger] scan_from(root, trace + f) == shift(trace.len(), resume(frames, e, f))
}

proof fn lemma_start(root: PathModel)
    ensures
        waiting_inv(root, Seq::empty(), Seq::empty(), root),
{
    assert forall|f: Seq<SeenModel>| #[trigger]
        scan_from(root, Seq::<SeenModel>::empty() + f) == shift(0, cont(Seq::empty(), root, f)) by {
        assert(Seq::<SeenModel>::empty() + f =~= f);
        lemma_scan_counts(root, f);
        if let Scanned::Done(es, n) = scan_from(root, f) {
            assert(es =~= seq![es[0]]);
        }
    }
}

proof fn lemma_need(root: PathModel, trace: Seq<SeenModel>, frames: Seq<FrameModel>, q: PathModel)
    requires
        waiting_inv(root, trace, frames, q),
    ensures
        scan_from(root, trace) == Scanned::Need(q),
{
    assert(trace + Seq::<SeenModel>::empty() =~= trace);
    assert(scan_from(root, trace + Seq::<SeenModel>::empty()) == shift(
        trace.len(),
        cont(frames, q, Seq::empty()),
    ));
}

proof fn lemma_done(root: PathModel, trace: Seq<SeenModel>, e: EntryModel)
    requires
        settle_inv(root, trace, Seq::empty(), e),
    ensures
        scan_from(root, trace) == Scanned::Done(seq![e], trace.len()),
{
    assert(trace + Seq::<SeenModel>::empty() =~= trace);
    assert(scan_from(root, trace + Seq::<SeenModel>::empty()) == shift(
        trace.len(),
        resume(Seq::empty(), e, Seq::empty()),
    ));
}

/// Reading `q` as `s`, which is a file or a directory with nothing to
/// scan, finishes the entry `e`.
proof fn lemma_read_leaf(
    root: PathModel,
    trace: Seq<SeenModel>,
    frames: Seq<FrameModel>,
    q: PathModel,
    s: SeenModel,
    e: EntryModel,
)
    requires
        waiting_inv(root, trace, frames, q),
        !s.is_dir ==> e == file_model(q, s.size),
        s.is_dir ==> kept_paths(s.children).len() == 0 && e == dir_model(q, Seq::empty(), true),
    ensures
        settle_inv(root, trace.push(s), frames, e),
{
    assert forall|f: Seq<SeenModel>| #[trigger]
        scan_from(root, trace.push(s) + f) == shift(trace.push(s).len(), resume(frames, e, f)) by {
        let g = seq![s] + f;
        assert(trace.push(s) + f =~= trace + g);
        assert(scan_from(root, trace + g) == shift(trace.len(), cont(frames, q, g)));
        assert(g[0] == s);
        assert(g.drop_first() =~= f);
        assert(g.skip(1) =~= f);
        if s.is_dir {
            assert(kept_paths(s.children) =~= Seq::<PathModel>::empty());
            assert(sum_sizes(Seq::<EntryModel>::empty()) == 0);
        }
        assert(scan_from(q, g) == Scanned::Done(seq![e], 1));
        assert(seq![e][0] == e);
        lemma_shift_shift(trace.len(), 1, resume(frames, e, f));
    }
}

/// Reading the directory `q` as `s`, with entries to scan, opens the frame
/// of `q` and asks for its first entry.
proof fn lemma_read_dir(
    root: PathModel,
    trace: Seq<SeenModel>,
    frames: Seq<FrameModel>,
    q: PathModel,
    s: SeenModel,
)
    requires
        waiting_inv(root, trace, frames, q),
        s.is_dir,
        kept_paths(s.children).len() > 0,
    ensures
        waiting_inv(
            root,
            trace.push(s),
            frames.push(
                FrameModel { path: q, done: Seq::empty(), todo: kept_paths(s.children).drop_first() },
            ),
            kept_paths(s.children)[0],
        ),
{
    let kids = kept_paths(s.children);
    let fr = FrameModel { path: q, done: Seq::empty(), todo: kids.drop_first() };
    let frames2 = frames.push(fr);
    assert(frames2.last() == fr);
    assert(frames2.drop_last() =~= frames);
    assert forall|f: Seq<SeenModel>| #[trigger]
        scan_from(root, trace.push(s) + f) == shift(trace.push(s).len(), cont(frames2, kids[0], f)) by {
        let g = seq![s] + f;
        assert(trace.push(s) + f =~= trace + g);
        assert(scan_from(root, trace + g) == shift(trace.len(), cont(frames, q, g)));
        assert(g[0] == s);
        assert(g.drop_first() =~= f);
        lemma_scan_counts(kids[0], f);
        match scan_from(kids[0], f) {
            Scanned::Done(first, n1) => {
                let h = f.skip(n1 as int);
                lemma_list_counts(kids.drop_first(), h);
                match scan_list(kids.drop_first(), h) {
                    Scanned::Done(more, m2) => {
                        assert(first =~= seq![first[0]]);
                        assert(Seq::<EntryModel>::empty().push(first[0]) + more =~= first + more);
                        assert(h.skip(m2 as int) =~= f.skip((n1 + m2) as int));
                        assert(g.skip((n1 + m2 + 1) as int) =~= f.skip((n1 + m2) as int));
                        match close_dir(q, first + more) {
                            Some(d) => {
                                let x = resume(frames, d, f.skip((n1 + m2) as int));
                                lemma_shift_shift(n1, m2, x);
                                lemma_shift_shift(trace.len(), n1 + m2 + 1, x);
                                lemma_shift_shift(trace.len() + 1, n1 + m2, x);
                            },
                            None => {},
                        }
                    },
                    _ => {},
                }
            },
            _ => {},
        }
    }
}

/// Finishing `e` inside the top frame, which still has entries to scan,
/// asks for the next of them.
proof fn lemma_settle_next(
    root: PathModel,
    trace: Seq<SeenModel>,
    frames: Seq<FrameModel>,
    e: EntryModel,
)
    requires
        settle_inv(root, trace, frames, e),
        frames.len() > 0,
        frames.last().todo.len() > 0,
    ensures
        waiting_inv(
            root,
            trace,
            frames.drop_last().push(
                FrameModel {
                    path: frames.last().path,
                    done: frames.last().done.push(e),
                    todo: frames.last().todo.drop_first(),
                },
            ),
            frames.last().todo[0],
        ),
{
    let top = frames.last();
    let fr = FrameModel { path: top.path, done: top.done.push(e), todo: top.todo.drop_first() };
    let frames2 = frames.drop_last().push(fr);
    assert(frames2.last() == fr);
    assert(frames2.drop_last() =~= frames.drop_last());
    let k0 = top.todo[0];
    assert forall|f: Seq<SeenModel>| #[trigger]
        scan_from(root, trace + f) == shift(trace.len(), cont(frames2, k0, f)) by {
        assert(scan_from(root, trace + f) == shift(trace.len(), resume(frames, e, f)));
        lemma_scan_counts(k0, f);
        match scan_from(k0, f) {
            Scanned::Done(first, n1) => {
                let h = f.skip(n1 as int);
                lemma_list_counts(top.todo.drop_first(), h);
                match scan_list(top.todo.drop_first(), h) {
                    Scanned::Done(more, m2) => {
                        assert(first =~= seq![first[0]]);
                        assert(top.done.push(e).push(first[0]) + more =~= top.done.push(e) + (first
                            + more));
                        assert(h.skip(m2 as int) =~= f.skip((n1 + m2) as int));
                        match close_dir(top.path, top.done.push(e) + (first + more)) {
                            Some(d) => {
                                let x = resume(frames.drop_last(), d, f.skip((n1 + m2) as int));
                                lemma_shift_shift(n1, m2, x);
                            },
                            None => {},
                        }
                    },
                    _ => {},
                }
            },
            _ => {},
        }
    }
}

/// Finishing `e` inside the top frame, which has nothing left to scan,
/// closes that frame's directory.
proof fn lemma_settle_close(
    root: PathModel,
    trace: Seq<SeenModel>,
    frames: Seq<FrameModel>,
    e: EntryModel,
)
    requires
        settle_inv(root, trace, frames, e),
        frames.len() > 0,
        frames.last().todo.len() == 0,
    ensures
        close_dir(frames.last().path, frames.last().done.push(e)) matches Some(d) ==> settle_inv(
            root,
            trace,
            frames.drop_last(),
            d,
        ),
        close_dir(frames.last().path, frames.last().done.push(e)) is None ==> scan_from(root, trace)
            is Overflow,
{
    let top = frames.last();
    assert forall|f: Seq<SeenModel>| true implies #[trigger] scan_from(root, trace + f) == shift(
        trace.len(),
        resume(frames, e, f),
    ) by {}
    assert forall|f: Seq<SeenModel>| true implies top.done.push(e) + Seq::<EntryModel>::empty()
        =~= top.done.push(e) && f.skip(0) =~= f by {}
    match close_dir(top.path, top.done.push(e)) {
        Some(d) => {
            assert forall|f: Seq<SeenModel>| #[trigger]
                scan_from(root, trace + f) == shift(trace.len(), resume(frames.drop_last(), d, f)) by {
                assert(scan_from(root, trace + f) == shift(trace.len(), resume(frames, e, f)));
                assert(top.todo =~= Seq::<PathModel>::empty());
                assert(top.done.push(e) + Seq::<EntryModel>::empty() =~= top.done.push(e));
                assert(f.skip(0) =~= f);
                lemma_shift_shift(0, 0, resume(frames.drop_last(), d, f));
            }
        },
        None => {
            assert(trace + Seq::<SeenModel>::empty() =~= trace);
            assert(top.todo =~= Seq::<PathModel>::empty());
            assert(top.done.push(e) + Seq::<EntryModel>::empty() =~= top.done.push(e));
            assert(scan_from(root, trace + Seq::<SeenModel>::empty()) == shift(
                trace.len(),
                resume(frames, e, Seq::empty()),
            ));
        },
    }
}

/// A directory being scanned: the entries of its children scanned so far,
/// the paths of its entries to scan, and how many of them were taken up.
struct Level {
    path: FsPath,
    done: Vec<Entry>,
    todo: Vec<FsPath>,
    next: usize,
}

spec fn frame_model(l: Level) -> FrameModel {
    FrameModel { path: l.path@, done: models(l.done@), todo: paths_of(l.todo@).skip(l.next as int) }
}

spec fn frames_model(ls: Seq<Level>) -> Seq<FrameModel> {
    Seq::new(ls.len(), |i: int| frame_model(ls[i]))
}

spec fn levels_ok(ls: Seq<Level>) -> bool {
    forall|i: int| 0 <= i < ls.len() ==> (#[trigger] ls[i]).next <= ls[i].todo@.len()
}

/// A recursive scan of one tree, run one path at a time: the walk asks for
/// a path to be read, the surrounding program reads it and hands back what
/// it found, and the walk decides what comes next. Before each path it
/// checks that the scan's generation is still current, and gives up as soon
/// as it is not.
pub struct ScanWalk {
    generation: u64,
    root: FsPath,
    levels: Vec<Level>,
    inspecting: Option<FsPath>,
    started: bool,
    over: bool,
    trace: Ghost<Seq<SeenModel>>,
}

/// What the walk asks for next.
pub enum WalkStep {
    /// Read this path and hand back what was found.
    Inspect(FsPath),
    /// The scan is over: the scanned tree, or `None` when the generation
    /// moved on before it was done.
    Finished(Option<Entry>),
    /// The sizes of a directory's entries add up past what a `u64` holds.
    TooLarge,
}

/// Whether a step, waiting or not, was handed a directory.
pub open spec fn read_a_directory(waiting: bool, seen: Option<Seen>) -> bool {
    waiting && (seen matches Some(s) && s.is_dir)
}

/// What a step of a walk leaves on show in the status: a directory it has
/// just read becomes the one on show when the walk's generation is still
/// current; otherwise what was on show stays.
pub open spec fn status_path_after(
    before: Option<FsPath>,
    after: Option<FsPath>,
    read_dir: bool,
    stale: bool,
    reading: Option<FsPath>,
) -> bool {
    if read_dir && !stale {
        shows(after, reading)
    } else {
        after == before
    }
}

/// Law: a walk whose scan has been cancelled puts no directory on show:
/// when the status shows none, it still shows none after any step of such
/// a walk. With `lemma_scan_path_cleared_when_idle`, the status names no
/// directory once no current scan is running.
pub proof fn lemma_cancelled_walk_shows_nothing(
    before: Option<FsPath>,
    after: Option<FsPath>,
    read_dir: bool,
    reading: Option<FsPath>,
)
    requires
        before is None,
        status_path_after(before, after, read_dir, true, reading),
    ensures
        after is None,
{
}

/// Both name the same path.
pub open spec fn shows(shown: Option<FsPath>, read: Option<FsPath>) -> bool {
    match (shown, read) {
        (Some(q), Some(p)) => q@ == p@,
        _ => false,
    }
}

/// What a step answers when the scan of `root` with the reads so far comes
/// out as `o`, and `stale` tells whether the generation moved on: the scanned
/// tree, overflow, or, when a path is still to read, a request for it
/// unless the scan was cancelled.
pub open spec fn answers(o: Scanned, stale: bool, r: WalkStep) -> bool {
    match o {
        Scanned::Need(p) => if stale {
            r matches WalkStep::Finished(None)
        } else {
            r matches WalkStep::Inspect(q) && q@ == p
        },
        Scanned::Done(es, n) => r matches WalkStep::Finished(Some(x)) && es == seq![x.model()],
        Scanned::Overflow => r is TooLarge,
    }
}

impl ScanWalk {
    /// The generation the scan runs under.
    pub closed spec fn generation_spec(&self) -> nat {
        self.generation as nat
    }

    /// The path the scan starts at.
    pub closed spec fn root_spec(&self) -> FsPath {
        self.root
    }

    /// What every read handed to the walk so far found, in order.
    pub closed spec fn trace(&self) -> Seq<SeenModel> {
        self.trace@
    }

    /// The path the walk last asked to be read.
    pub closed spec fn inspecting_spec(&self) -> Option<FsPath> {
        self.inspecting
    }

    /// Whether the scan is over.
    pub closed spec fn over_spec(&self) -> bool {
        self.over
    }

    /// Whether the walk waits for what reading a path found.
    pub closed spec fn waiting(&self) -> bool {
        self.started && !self.over
    }

    /// The walk's own bookkeeping is in order.
    pub closed spec fn well_formed(&self) -> bool {
        &&& levels_ok(self.levels@)
        &&& (!self.started ==> self.trace@.len() == 0 && self.levels@.len() == 0 && !self.over)
        &&& (self.started && !self.over ==> match self.inspecting {
            Some(q) => waiting_inv(self.root@, self.trace@, frames_model(self.levels@), q@),
            None => false,
        })
    }

    /// A scan of the tree at `root` under `generation`, not started yet.
    pub fn start(root: FsPath, generation: u64) -> (w: ScanWalk)
        ensures
            w.well_formed(),
            w.generation_spec() == generation,
            w.root_spec() == root,
            w.trace() == Seq::<SeenModel>::empty(),
            !w.over_spec(),
            !w.waiting(),
    {
        ScanWalk {
            generation,
            root,
            levels: Vec::new(),
            inspecting: None,
            started: false,
            over: false,
            trace: Ghost(Seq::empty()),
        }
    }

    /// Checks the generation, then asks for `next` to be read, or ends the
    /// scan when the generation moved on.
    fn ask(&mut self, status: &ScanStatus, next: FsPath) -> (r: WalkStep)
        requires
            old(self).started,
            !old(self).over,
            levels_ok(old(self).levels@),
            waiting_inv(old(self).root@, old(self).trace@, frames_model(old(self).levels@), next@),
        ensures
            final(self).well_formed(),
            final(self).generation == old(self).generation,
            final(self).root == old(self).root,
            final(self).trace == old(self).trace,
            final(self).started,
            answers(
                scan_from(old(self).root@, old(self).trace@),
                status.stale(old(self).generation as nat),
                r,
            ),
            r is Inspect <==> !final(self).over,
            r matches WalkStep::Inspect(p) ==> shows(final(self).inspecting, Some(p)),
    {
        proof {
            lemma_need(self.root@, self.trace@, frames_model(self.levels@), next@);
        }
        if status.is_stale(self.generation) {
            self.over = true;
            self.inspecting = None;
            WalkStep::Finished(None)
        } else {
            let asked = next.clone();
            self.inspecting = Some(asked);
            WalkStep::Inspect(next)
        }
    }

    /// Hands `e`, the finished entry of the path just read or of a finished
    /// directory, to the directory it belongs to, and moves on: to the next
    /// entry still to read, or up to the enclosing directory when none is
    /// left, or to the end of the scan when `e` is the whole tree.
    fn settle(&mut self, status: &ScanStatus, e: Entry) -> (r: WalkStep)
        requires
            old(self).started,
            !old(self).over,
            levels_ok(old(self).levels@),
            settle_inv(old(self).root@, old(self).trace@, frames_model(old(self).levels@), e.model()),
        ensures
            final(self).well_formed(),
            final(self).generation == old(self).generation,
            final(self).root == old(self).root,
            final(self).trace == old(self).trace,
            final(self).started,
            answers(
                scan_from(old(self).root@, old(self).trace@),
                status.stale(old(self).generation as nat),
                r,
            ),
            r is Inspect <==> !final(self).over,
            r matches WalkStep::Inspect(p) ==> shows(final(self).inspecting, Some(p)),
    {
        let mut finished = e;
        loop
            invariant
                self.started,
                !self.over,
                levels_ok(self.levels@),
                settle_inv(self.root@, self.trace@, frames_model(self.levels@), finished.model()),
                self.generation == old(self).generation,
                self.root == old(self).root,
                self.trace == old(self).trace,
            decreases self.levels@.len(),
        {
            if self.levels.len() == 0 {
                proof {
                    assert(frames_model(self.levels@) =~= Seq::<FrameModel>::empty());
                    lemma_done(self.root@, self.trace@, finished.model());
                }
                self.over = true;
                self.inspecting = None;
                return WalkStep::Finished(Some(finished));
            }
            let ghost before = self.levels@;
            let ghost fm = frames_model(before);
            let mut top = self.levels.pop().unwrap();
            proof {
                assert(top == before[before.len() - 1]);
                assert(fm.last() == frame_model(top));
                assert(frames_model(self.levels@) =~= fm.drop_last());
                assert(top.next <= top.todo@.len());
            }
            let ghost done0 = top.done@;
            top.done.push(finished);
            proof {
                assert(models(top.done@) =~= models(done0).push(finished.model()));
            }
            if top.next < top.todo.len() {
                let next = top.todo[top.next].clone();
                proof {
                    assert(fm.last().todo.len() > 0);
                    lemma_settle_next(self.root@, self.trace@, fm, finished.model());
                    assert(fm.last().todo[0] == next@);
                }
                top.next = top.next + 1;
                let ghost below = self.levels@;
                self.levels.push(top);
                proof {
                    assert(frame_model(top).todo =~= fm.last().todo.drop_first());
                    assert(frames_model(self.levels@) =~= frames_model(below).push(frame_model(top)));
                    assert(frames_model(self.levels@) =~= fm.drop_last().push(
                        FrameModel {
                            path: fm.last().path,
                            done: fm.last().done.push(finished.model()),
                            todo: fm.last().todo.drop_first(),
                        },
                    ));
                    assert forall|i: int| 0 <= i < self.levels@.len() implies (
                    #[trigger] self.levels@[i]).next <= self.levels@[i].todo@.len() by {
                        if i < below.len() {
                            assert(self.levels@[i] == below[i]);
                            assert(below[i] == before[i]);
                        }
                    }
                }
                return self.ask(status, next);
            }
            proof {
                assert(fm.last().todo.len() == 0);
                lemma_settle_close(self.root@, self.trace@, fm, finished.model());
                assert forall|i: int| 0 <= i < self.levels@.len() implies (
                #[trigger] self.levels@[i]).next <= self.levels@[i].todo@.len() by {
                    assert(self.levels@[i] == before[i]);
                }
            }
            match checked_total(&top.done, top.done.len(), 0) {
                Some(_) => {},
                None => {
                    self.over = true;
                    self.inspecting = None;
                    return WalkStep::TooLarge;
                },
            }
            finished = directory_entry(top.path, top.done, true);
        }
    }

    /// Takes one step of the scan. Before the scan starts, `seen` is
    /// ignored and the walk asks for the root; afterwards `seen` is what
    /// reading the path the walk asked for found, and is added to the
    /// walk's trace. The answer follows `scanned_model` of the trace: the
    /// finished tree, overflow, or the next path to read. The generation
    /// is checked before each path is asked for, and before a directory
    /// read becomes the directory on show in `status`; once it has moved
    /// on the scan ends with nothing.
    pub fn step(&mut self, status: &mut ScanStatus, seen: Option<Seen>) -> (r: WalkStep)
        requires
            old(self).well_formed(),
            !old(self).over_spec(),
            old(self).waiting() ==> seen is Some,
        ensures
            final(self).well_formed(),
            final(self).generation_spec() == old(self).generation_spec(),
            final(self).root_spec() == old(self).root_spec(),
            final(self).trace() == (if old(self).waiting() {
                old(self).trace().push(seen_model(seen->0))
            } else {
                old(self).trace()
            }),
            final(status).generation_spec() == old(status).generation_spec(),
            read_a_directory(old(self).waiting(), seen) && old(status).stale(
                old(self).generation_spec(),
            ) ==> r matches WalkStep::Finished(None),
            !(read_a_directory(old(self).waiting(), seen) && old(status).stale(
                old(self).generation_spec(),
            )) ==> answers(
                scanned_model(old(self).root_spec()@, final(self).trace()),
                old(status).stale(old(self).generation_spec()),
                r,
            ),
            r is Inspect <==> final(self).waiting(),
            r matches WalkStep::Inspect(p) ==> shows(final(self).inspecting_spec(), Some(p)),
            status_path_after(
                old(status).path_spec(),
                final(status).path_spec(),
                read_a_directory(old(self).waiting(), seen),
                old(status).stale(old(self).generation_spec()),
                old(self).inspecting_spec(),
            ),
    {
        if !self.started {
            self.started = true;
            proof {
                lemma_start(self.root@);
                assert(frames_model(self.levels@) =~= Seq::<FrameModel>::empty());
                assert(self.trace@ =~= Seq::<SeenModel>::empty());
            }
            let root = self.root.clone();
            return self.ask(status, root);
        }
        let path = match &self.inspecting {
            Some(p) => p.clone(),
            None => {
                return WalkStep::TooLarge;
            },
        };
        let seen = match seen {
            Some(s) => s,
            None => {
                return WalkStep::TooLarge;
            },
        };
        let ghost t0 = self.trace@;
        let ghost sm = seen_model(seen);
        let ghost fm = frames_model(self.levels@);
        self.trace = Ghost(self.trace@.push(seen_model(seen)));
        if !seen.is_dir {
            let e = file_entry(path, seen.size);
            proof {
                lemma_read_leaf(self.root@, t0, fm, path@, sm, e.model());
            }
            return self.settle(status, e);
        }
        if status.is_stale(self.generation) {
            self.over = true;
            self.inspecting = None;
            return WalkStep::Finished(None);
        }
        status.set_current_scan_path(path.clone());
        let mut todo: Vec<FsPath> = Vec::new();
        let mut i: usize = 0;
        proof {
            assert(paths_of(seen.children@).take(0) =~= Seq::<PathModel>::empty());
            assert(paths_of(todo@) =~= Seq::<PathModel>::empty());
        }
        while i < seen.children.len()
            invariant
                i <= seen.children.len(),
                paths_of(todo@) == kept_paths(paths_of(seen.children@).take(i as int)),
            decreases seen.children.len() - i,
        {
            let ghost ps = paths_of(seen.children@);
            proof {
                assert(ps.take(i + 1).drop_last() =~= ps.take(i as int));
                assert(ps.take(i + 1).last() == seen.children@[i as int]@);
            }
            if !is_index_dir(&seen.children[i]) {
                let ghost before = todo@;
                todo.push(seen.children[i].clone());
                proof {
                    assert(paths_of(todo@) =~= paths_of(before).push(seen.children@[i as int]@));
                }
            }
            i = i + 1;
        }
        proof {
            assert(paths_of(seen.children@).take(seen.children.len() as int) =~= paths_of(
                seen.children@,
            ));
            assert(paths_of(todo@) == kept_paths(sm.children));
        }
        if todo.len() > 0 {
            let next = todo[0].clone();
            let level = Level { path, done: Vec::new(), todo, next: 1 };
            let ghost below = self.levels@;
            self.levels.push(level);
            proof {
                lemma_read_dir(self.root@, t0, fm, level.path@, sm);
                assert(models(level.done@) =~= Seq::<EntryModel>::empty());
                assert(frame_model(level).todo =~= kept_paths(sm.children).drop_first());
                assert(frames_model(self.levels@) =~= fm.push(frame_model(level)));
                assert forall|j: int| 0 <= j < self.levels@.len() implies (
                #[trigger] self.levels@[j]).next <= self.levels@[j].todo@.len() by {
                    if j < below.len() {
                        assert(self.levels@[j] == below[j]);
                    }
                }
            }
            return self.ask(status, next);
        }
        let e = directory_entry(path, Vec::new(), true);
        proof {
            assert(models(Seq::<Entry>::empty()) =~= Seq::<EntryModel>::empty());
            lemma_read_leaf(self.root@, t0, fm, e.path@, sm, e.model());
        }
        self.settle(status, e)
    }
}

} // verus!
