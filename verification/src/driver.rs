use vstd::prelude::*;
use crate::path::FsPath;
use crate::app::{
    AppModel, AppView, ActionView, Effects, EffectsView, Message, step, root_checked_step, wf,
    accepts, uses_generation,
};
use crate::status::ScanStatus;
use crate::entry::{
    checked_total, removal_check, sized, position_of, models, lemma_children_models,
    lemma_sum_update,
};

verus! {

/// The scan status after the effects `fx` of a step are carried out: a new
/// generation when they ask for one, and no directory on show when they ask
/// to forget it.
pub open spec fn status_after(
    earlier_generation: nat,
    earlier_path: Option<FsPath>,
    fx: EffectsView,
    later_generation: nat,
    later_path: Option<FsPath>,
) -> bool {
    &&& later_generation == (if fx.advance_generation {
        earlier_generation + 1
    } else {
        earlier_generation
    })
    &&& later_path == (if fx.clear_scan_path {
        None
    } else {
        earlier_path
    })
}

/// Law: a step asks for a new generation only when it begins a scan or
/// cancels the scans in flight; a scan it begins runs under the generation
/// handed to the step, and every other step keeps the state's generation.
pub proof fn lemma_step_generation(s: AppView, m: Message, now: nat, gen: nat)
    ensures
        step(s, m, now, gen).1.advance_generation ==> (uses_generation(m) || m is CancelScan),
        step(s, m, now, gen).1.advance_generation && !(m is CancelScan) ==> step(
            s,
            m,
            now,
            gen,
        ).0.generation == gen,
        !step(s, m, now, gen).1.advance_generation ==> step(s, m, now, gen).0.generation
            == s.generation,
        m is CancelScan ==> step(s, m, now, gen).0.generation == s.generation,
{
    reveal(step);
}

/// Law: cancelling stops the scans in flight without losing what they
/// found: only the count of pending branches changes.
pub proof fn lemma_cancel_keeps_found(s: AppView, now: nat, gen: nat)
    ensures
        step(s, Message::CancelScan, now, gen).0 == (AppView { pending_branches: 0, ..s }),
        step(s, Message::CancelScan, now, gen).1.advance_generation,
        step(s, Message::CancelScan, now, gen).1.clear_scan_path,
{
    reveal(step);
}

/// Law: nothing is deleted without confirmation. A step asks for a delete
/// only when the user confirms the delete dialog, and only of the path the
/// dialog showed, which is never the scan root.
pub proof fn lemma_delete_needs_confirmation(s: AppView, m: Message, now: nat, gen: nat)
    requires
        wf(s),
    ensures
        step(s, m, now, gen).1.action matches ActionView::Delete(p, _) ==> {
            &&& m is DeleteConfirmed
            &&& s.confirm_delete == Some(p)
            &&& p != s.scan_root
        },
{
    reveal(step);
}

/// Law: a rename is asked for only when the user confirms the rename
/// dialog, never for the scan root, and names the new path by joining the
/// trimmed new name to the entry's parent folder.
pub proof fn lemma_rename_needs_confirmation(s: AppView, m: Message, now: nat, gen: nat)
    requires
        wf(s),
    ensures
        step(s, m, now, gen).1.action matches ActionView::Rename(from, to) ==> {
            &&& m is RenameConfirmed
            &&& from != s.scan_root
            &&& match s.rename_target {
                Some(t) => t.0 == from && match crate::path::parent_of(from) {
                    Some(par) => to == crate::path::join_path(
                        par,
                        crate::path::parse_path(crate::text::trimmed(t.1)),
                    ),
                    None => false,
                },
                None => false,
            }
        },
{
    reveal(step);
}

/// Law: a search only takes effect while its generation is the latest one;
/// an outdated pause or result leaves the state as it was and asks for
/// nothing.
pub proof fn lemma_stale_search_ignored(s: AppView, g: u64, r: crate::pathset::PathSet, now: nat, gen: nat)
    requires
        g as nat != s.search_generation,
    ensures
        step(s, Message::SearchDebounced(g), now, gen) == (s, crate::app::quiet()),
        step(s, Message::SearchResultsReady(g, r), now, gen) == (s, crate::app::quiet()),
{
    reveal(step);
}

/// Law: when the last pending branch finishes, or the scan is cancelled,
/// the step asks to forget the directory on show, so the status line no
/// longer names a directory once nothing is scanning (`handle` then leaves
/// the scan status without one, by `status_after`).
pub proof fn lemma_scan_path_cleared_when_idle(s: AppView, m: Message, now: nat, gen: nat)
    requires
        s.pending_branches > 0,
        m is BranchScanned || m is CancelScan,
        step(s, m, now, gen).0.pending_branches == 0,
    ensures
        step(s, m, now, gen).1.clear_scan_path,
{
    reveal(step);
}

/// Carries out the scan-status part of `fx`.
fn apply_status(status: &mut ScanStatus, fx: &Effects)
    requires
        old(status).generation_spec() < u64::MAX,
    ensures
        status_after(
            old(status).generation_spec(),
            old(status).path_spec(),
            fx@,
            final(status).generation_spec(),
            final(status).path_spec(),
        ),
{
    if fx.advance_generation {
        status.next_generation();
    }
    if fx.clear_scan_path {
        status.clear_current_scan_path();
    }
}

impl AppModel {
    /// Reacts to `message` at time `now` and keeps the shared scan status in
    /// step: a scan begun here runs under the next generation, which the
    /// status then moves to, so every scan begun earlier is cancelled.
    pub fn handle(&mut self, status: &mut ScanStatus, message: Message, now: u64) -> (fx: Effects)
        requires
            wf(old(self)@),
            accepts(old(self)@, message),
            old(status).generation_spec() < u64::MAX,
        ensures
            (final(self)@, fx@) == step(
                old(self)@,
                message,
                now as nat,
                old(status).generation_spec() + 1,
            ),
            status_after(
                old(status).generation_spec(),
                old(status).path_spec(),
                fx@,
                final(status).generation_spec(),
                final(status).path_spec(),
            ),
            wf(final(self)@),
            fx@.advance_generation && !(message is CancelScan) ==> final(self)@.generation
                == final(status).generation_spec(),
            old(self)@.generation <= old(status).generation_spec() ==> final(self)@.generation
                <= final(status).generation_spec(),
    {
        let generation = status.current_generation() + 1;
        proof {
            lemma_step_generation(self@, message, now as nat, generation as nat);
        }
        let fx = self.update(message, now, generation);
        apply_status(status, &fx);
        fx
    }

    /// Finishes a typed root as `root_checked` does and keeps the shared
    /// scan status in step with it.
    pub fn handle_root_checked(
        &mut self,
        status: &mut ScanStatus,
        candidate: FsPath,
        text: String,
        is_dir: bool,
    ) -> (fx: Effects)
        requires
            wf(old(self)@),
            old(status).generation_spec() < u64::MAX,
        ensures
            (final(self)@, fx@) == root_checked_step(
                old(self)@,
                candidate@,
                candidate.text@,
                text@,
                is_dir,
                old(status).generation_spec() + 1,
            ),
            status_after(
                old(status).generation_spec(),
                old(status).path_spec(),
                fx@,
                final(status).generation_spec(),
                final(status).path_spec(),
            ),
            wf(final(self)@),
            is_dir ==> final(self)@.generation == final(status).generation_spec(),
    {
        let generation = status.current_generation() + 1;
        let fx = self.root_checked(candidate, text, is_dir, generation);
        apply_status(status, &fx);
        fx
    }
}

impl AppModel {
    /// Whether `message` can be taken without overflow (`accepts`): the
    /// root's total after a finished branch fits a `u64`, every size a
    /// deletion recomputes fits a `u64`, and the search generation can
    /// still grow.
    pub fn accepts_message(&self, message: &Message) -> (r: bool)
        ensures
            r == accepts(self@, *message),
    {
        match message {
            Message::BranchScanned(p, scanned) => match scanned {
                Some(e) => match &self.root {
                    Some(r) => {
                        proof {
                            lemma_children_models(r);
                        }
                        let ghost ms = models(r.children@);
                        let ghost em = e.model();
                        match position_of(&r.children, p) {
                            Some(i) => {
                                let t = checked_total(&r.children, i, e.size);
                                proof {
                                    lemma_sum_update(ms, i as int, sized(ms[i as int], e.size as nat));
                                    lemma_sum_update(ms, i as int, em);
                                }
                                t.is_some()
                            },
                            None => {
                                let t = checked_total(&r.children, r.children.len(), 0);
                                t.is_some()
                            },
                        }
                    },
                    None => true,
                },
                None => true,
            },
            Message::DeleteCompleted(p, result) => match result {
                Ok(()) => match &self.root {
                    Some(r) => removal_check(r, p).1,
                    None => true,
                },
                Err(_) => true,
            },
            Message::SearchChanged(_) => self.search_generation < u64::MAX,
            _ => true,
        }
    }
}

} // verus!
