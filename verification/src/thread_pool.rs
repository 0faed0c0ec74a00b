//! Worker pools: the contract of a pool, and what a worker of a pool that shares
//! one queue does after each thing that happens to it.

use crate::error::KvsError;
use vstd::prelude::*;

verus! {

/// A pool of threads that run jobs handed to it.
pub trait ThreadPool: Sized {
    /// A pool of `threads` workers.
    fn new(threads: u32) -> (r: Result<Self, KvsError>)
        requires
            threads >= 1,
    ;

    /// Hands the pool a job, which one of its workers runs once. Does not wait
    /// for the job, nor for a free worker.
    fn spawn<F>(&self, job: F) where F: FnOnce() + Send + 'static
        requires
            job.requires(()),
    ;
}

/// What happens to a worker of a pool that shares one queue.
#[derive(Clone, Copy, Debug, PartialEq, Eq, Structural)]
pub enum WorkerEvent {
    /// It took a job from the queue.
    Received,
    /// The job it ran returned.
    Finished,
    /// The job it ran panicked, and its thread unwinds.
    Panicked,
    /// The queue is closed: the pool is gone, and no job will come.
    Closed,
}

/// What a worker does next.
#[derive(Clone, Copy, Debug, PartialEq, Eq, Structural)]
pub enum WorkerAction {
    /// Run the job, outside the queue's lock.
    Run,
    /// Wait for the next job.
    Wait,
    /// Start a new worker on the same queue, in place of this one, whose thread ends.
    Replace,
    /// End, without a successor.
    Stop,
}

/// What a worker does after an event.
pub open spec fn action_after(event: WorkerEvent) -> WorkerAction {
    match event {
        WorkerEvent::Received => WorkerAction::Run,
        WorkerEvent::Finished => WorkerAction::Wait,
        WorkerEvent::Panicked => WorkerAction::Replace,
        WorkerEvent::Closed => WorkerAction::Stop,
    }
}

/// The number of workers after one of `live` workers did what it does after an event.
pub open spec fn workers_after(live: nat, event: WorkerEvent) -> nat {
    match action_after(event) {
        WorkerAction::Run => live,
        WorkerAction::Wait => live,
        WorkerAction::Replace => live,
        WorkerAction::Stop => if live > 0 {
            (live - 1) as nat
        } else {
            0
        },
    }
}

/// The number of workers after a sequence of events.
pub open spec fn workers_after_all(live: nat, events: Seq<WorkerEvent>) -> nat
    decreases events.len(),
{
    if events.len() == 0 {
        live
    } else {
        workers_after(workers_after_all(live, events.drop_last()), events.last())
    }
}

/// While the queue is open, the pool keeps its number of workers, however many
/// jobs panic.
pub proof fn lemma_workers_restored(live: nat, events: Seq<WorkerEvent>)
    requires
        forall|i: int| 0 <= i < events.len() ==> events[i] != WorkerEvent::Closed,
    ensures
        workers_after_all(live, events) == live,
    decreases events.len(),
{
    if events.len() > 0 {
        lemma_workers_restored(live, events.drop_last());
        assert(events[events.len() - 1] != WorkerEvent::Closed);
    }
}

/// What a worker does after it asked the queue for a job: it runs the job if it
/// got one, and ends if the queue is closed.
pub fn after_receive(got_job: bool) -> (action: WorkerAction)
    ensures
        action == action_after(
            if got_job {
                WorkerEvent::Received
            } else {
                WorkerEvent::Closed
            },
        ),
{
    if got_job {
        WorkerAction::Run
    } else {
        WorkerAction::Stop
    }
}

/// What a worker does when it is done with a job: it waits for the next if the job
/// returned, and is replaced if the job panicked.
pub fn after_job(panicked: bool) -> (action: WorkerAction)
    ensures
        action == action_after(
            if panicked {
                WorkerEvent::Panicked
            } else {
                WorkerEvent::Finished
            },
        ),
{
    if panicked {
        WorkerAction::Replace
    } else {
        WorkerAction::Wait
    }
}

} // verus!
