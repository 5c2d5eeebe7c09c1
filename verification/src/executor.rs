//! The per-task execution decision.
//!
//! For one task the executor computes the fingerprint, probes the manifest
//! store, and then either replays from the cache or runs the command and
//! captures.  The probing and the running are I/O; the decision between them
//! is here, and it is what makes the cache honest: a hit never reaches the
//! shell.

use crate::errors::Error;
use vstd::prelude::*;

verus! {

/// What the executor decides to do for one task.
#[derive(PartialEq, Eq, Structural, Clone, Copy, Debug)]
pub enum TaskPlan {
    /// A manifest exists for the fingerprint: print the stored output
    /// verbatim, and restore the archive iff the task declares outputs.
    Replay { restore_outputs: bool },
    /// No manifest: write one, run the command under the terminal, and
    /// capture the archive iff the task declares outputs.
    Execute { capture_outputs: bool },
}

/// The decision rule: a cache hit replays, a miss executes; outputs are
/// restored or captured exactly when the task declares them.
pub open spec fn spec_plan(cache_hit: bool, has_output: bool) -> TaskPlan {
    if cache_hit {
        TaskPlan::Replay { restore_outputs: has_output }
    } else {
        TaskPlan::Execute { capture_outputs: has_output }
    }
}

/// Decides how to run one task, from whether a manifest was found for its
/// fingerprint and whether it declares output files.
pub fn plan_task(cache_hit: bool, has_output: bool) -> (p: TaskPlan)
    ensures
        p == spec_plan(cache_hit, has_output),
{
    if cache_hit {
        TaskPlan::Replay { restore_outputs: has_output }
    } else {
        TaskPlan::Execute { capture_outputs: has_output }
    }
}

/// Turns the command's exit status into the task's outcome: zero succeeds,
/// anything else is `CommandFailed` with that status.
pub fn exit_outcome(status: i32) -> (r: Result<(), Error>)
    ensures
        r is Ok <==> status == 0,
        r matches Err(e) ==> e == Error::CommandFailed(status),
{
    if status == 0 {
        Ok(())
    } else {
        Err(Error::CommandFailed(status))
    }
}

/// Cache idempotence: a second run over unchanged inputs finds the manifest
/// the first run wrote for the same fingerprint, and a hit is always a
/// replay — the shell is not invoked again.  (That the replayed bytes equal
/// the first run's output is the store's write-once discipline, exercised by
/// the end-to-end tests.)
pub proof fn lemma_cache_hit_never_executes(has_output: bool)
    ensures
        forall|ho: bool| spec_plan(true, ho) is Replay,
        spec_plan(true, has_output)->Replay_restore_outputs == has_output,
        forall|ho: bool| !(spec_plan(true, ho) is Execute),
{
}

} // verus!
