//! The decisions of a future that runs a blocking read on a worker thread
//! and reports completion through a shared flag.
use vstd::prelude::*;

verus! {

/// What one poll of a worker-backed read does.
#[derive(PartialEq, Eq, Structural, Debug, Clone, Copy)]
pub enum ReadAction {
    /// No worker yet: start it and report `NotReady`.
    StartWorker,
    /// The worker has not signalled completion: report `NotReady`.
    KeepWaiting,
    /// The worker has signalled completion: collect its result and report
    /// `Ready`.
    Collect,
}

/// The action of a poll, given whether the worker was started and whether
/// its completion flag was seen set. The worker starts at most once, and the
/// result is collected only after completion was seen.
pub fn read_action(started: bool, done: bool) -> (a: ReadAction)
    ensures
        !started ==> a == ReadAction::StartWorker,
        started && !done ==> a == ReadAction::KeepWaiting,
        started && done ==> a == ReadAction::Collect,
{
    if !started {
        ReadAction::StartWorker
    } else if !done {
        ReadAction::KeepWaiting
    } else {
        ReadAction::Collect
    }
}

} // verus!
