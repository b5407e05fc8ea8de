//! The decision logic of the parallel traversal source: what a worker
//! does at each poll, how worker-produced outcomes are filed, and the
//! pool discipline whose invariant lets idle workers exit.
//!
//! The threads, the shared queue and the channel themselves live with
//! the program around the library; the rules they must follow are
//! stated and proved here.

use vstd::prelude::*;

use crate::du::Entry;
use crate::util::FsError;

verus! {

/// Files one worker-produced outcome: a produced entry is handed on, a
/// failure is recorded at the end of the error list.
pub fn collect_entry(res: Result<Entry, FsError>, errors: &mut Vec<FsError>) -> (r: Option<
    Entry,
>)
    ensures
        match res {
            Result::Ok(e) => r == Option::Some(e) && final(errors)@ == old(errors)@,
            Result::Err(er) => r is None && final(errors)@ == old(errors)@.push(er),
        },
{
    match res {
        Result::Ok(e) => Option::Some(e),
        Result::Err(er) => {
            errors.push(er);
            Option::None
        },
    }
}

/// What a worker does at the top of its poll loop.
#[derive(Clone, Copy, PartialEq, Eq, Structural, Debug)]
pub enum WorkerAction {
    /// A task was claimed: list the directory, publishing every item —
    /// success or failure — before going idle again.
    Work,
    /// Stop: the pool was told to stop, or no task exists and no worker
    /// is active, so none can ever appear.
    Exit,
    /// Nothing to do yet, but an active worker may still publish tasks:
    /// yield the processor and look again (busy-poll, no blocking).
    Poll,
}

/// The decision at the top of a worker's loop, exactly as the pool's
/// discipline requires: stop when told to; otherwise take work when
/// there is some; otherwise exit only when no worker is active.
pub fn worker_action(running: bool, has_task: bool, active_workers: usize) -> (r: WorkerAction)
    ensures
        r == (if !running {
            WorkerAction::Exit
        } else if has_task {
            WorkerAction::Work
        } else if active_workers == 0 {
            WorkerAction::Exit
        } else {
            WorkerAction::Poll
        }),
{
    if !running {
        WorkerAction::Exit
    } else if has_task {
        WorkerAction::Work
    } else if active_workers == 0 {
        WorkerAction::Exit
    } else {
        WorkerAction::Poll
    }
}

/// The pool's shared counters, abstractly: tasks waiting in the queue
/// and workers currently marked active.
pub ghost struct PoolState {
    pub queued: nat,
    pub active: nat,
}

/// One observable step of a worker against the shared state.
pub enum PoolEvent {
    /// Dequeue a task and mark the taking worker active.
    Claim,
    /// Insert a follow-up task. A worker inserts strictly before it
    /// clears its own active flag, so publishing requires an active
    /// worker.
    Publish,
    /// Clear the active flag after the claimed directory is done.
    Retire,
}

/// Which steps the pool's discipline allows.
pub open spec fn pool_step(pre: PoolState, ev: PoolEvent, post: PoolState) -> bool {
    match ev {
        PoolEvent::Claim => pre.queued >= 1 && post == PoolState {
            queued: (pre.queued - 1) as nat,
            active: pre.active + 1,
        },
        PoolEvent::Publish => pre.active >= 1 && post == PoolState {
            queued: pre.queued + 1,
            active: pre.active,
        },
        PoolEvent::Retire => pre.active >= 1 && post == PoolState {
            queued: pre.queued,
            active: (pre.active - 1) as nat,
        },
    }
}

/// Empty queue, no active worker: nothing in flight anywhere.
pub open spec fn quiescent(s: PoolState) -> bool {
    s.queued == 0 && s.active == 0
}

/// Termination invariant of the pool: once the queue is empty and the
/// active count is zero, no step is enabled, so no task can ever appear
/// thereafter — the sole condition under which a polling worker may
/// exit, and the reason the pool's drain to quiescence is final.
pub proof fn lemma_quiescent_is_final(pre: PoolState, ev: PoolEvent, post: PoolState)
    requires
        quiescent(pre),
    ensures
        !pool_step(pre, ev, post),
{
}

} // verus!
