//! The worker pool: its interface, its sizes, and the decisions of a worker.
//!
//! A pool runs each job that it is given on one of its workers. Queues and
//! threads belong to the caller; here stands what a worker decides when a
//! message arrives and when it ends, so that a job that panics costs the pool
//! no worker.

use crate::error::KvsError;
use vstd::prelude::*;

verus! {

/// A pool of workers that run jobs.
pub trait ThreadPool: Sized {
    /// A pool of `threads` workers.
    fn new(threads: u32) -> Result<Self, KvsError>;

    /// Hands `f` to the pool, which runs it on one of its workers.
    fn spawn<F>(&self, f: F) where F: FnOnce() + Send + 'static;
}

/// `num_cpus::get`: the number of processors that the machine offers to this
/// process, which is at least one. No more is known of it beforehand.
#[verifier::external_body]
fn cpu_count() -> (cpus: usize)
    ensures
        cpus >= 1,
{
    num_cpus::get()
}

/// The number of workers for a machine of `cpus` processors: one for each,
/// and at least one.
pub fn worker_count(cpus: usize) -> (workers: u32)
    ensures
        workers == (if cpus == 0 {
            1
        } else if cpus > u32::MAX {
            u32::MAX as int
        } else {
            cpus as int
        }),
{
    if cpus == 0 {
        1
    } else if cpus > u32::MAX as usize {
        u32::MAX
    } else {
        cpus as u32
    }
}

/// The number of workers for this machine.
pub fn default_worker_count() -> (workers: u32)
    ensures
        workers >= 1,
{
    worker_count(cpu_count())
}

/// The number of jobs that the queue of a pool of `threads` workers holds:
/// three for each worker, as far as a `usize` can tell.
pub fn queue_capacity(threads: u32) -> (capacity: usize)
    ensures
        capacity == (if 3 * threads <= usize::MAX {
            3 * threads
        } else {
            usize::MAX as int
        }),
{
    let wanted: u64 = 3 * (threads as u64);
    if wanted > usize::MAX as u64 {
        usize::MAX
    } else {
        wanted as usize
    }
}

/// What a worker finds when it asks the queue for a message.
#[derive(Clone, Copy, Debug, PartialEq, Eq, Structural)]
pub enum Received {
    /// A job to run.
    Job,
    /// The order to end.
    Terminate,
    /// Nothing, and nothing will come: the queue is closed.
    Disconnected,
}

/// What a worker does next.
#[derive(Clone, Copy, Debug, PartialEq, Eq, Structural)]
pub enum WorkerStep {
    /// It runs the job, and asks the queue again.
    Run,
    /// It ends.
    Exit,
}

/// What a worker does with what it received: it runs a job, and ends on the
/// order to end and when the queue is closed.
pub fn worker_step(received: Received) -> (step: WorkerStep)
    ensures
        step == WorkerStep::Run <==> received == Received::Job,
{
    match received {
        Received::Job => WorkerStep::Run,
        Received::Terminate => WorkerStep::Exit,
        Received::Disconnected => WorkerStep::Exit,
    }
}

/// Whether a worker that ends starts another worker on the same queue in its
/// place: it does when a panic of its job ends it, and only then.
pub open spec fn respawns(panicking: bool) -> bool {
    panicking
}

/// Whether a worker that ends starts another worker on the same queue in its
/// place.
pub fn respawn_on_exit(panicking: bool) -> (respawn: bool)
    ensures
        respawn == respawns(panicking),
{
    panicking
}

/// The number of workers of a pool of `workers` workers after jobs have ended
/// as `panicked` tells, one entry for each job: a job that panics ends
/// its worker, and the worker decides by `respawns` whether another takes its
/// place.
pub open spec fn workers_after(workers: nat, panicked: Seq<bool>) -> nat
    decreases panicked.len(),
{
    if panicked.len() == 0 {
        workers
    } else {
        let before = workers_after(workers, panicked.drop_last());
        let ended: nat = if panicked.last() && before > 0 {
            1
        } else {
            0
        };
        let started: nat = if ended == 1 && respawns(panicked.last()) {
            1
        } else {
            0
        };
        (before - ended + started) as nat
    }
}

/// Jobs that panic cost the pool no worker: after any number of jobs, however
/// many of them panicked, the pool has the workers that it had.
pub proof fn lemma_panics_keep_workers(workers: nat, panicked: Seq<bool>)
    ensures
        workers_after(workers, panicked) == workers,
    decreases panicked.len(),
{
    if panicked.len() > 0 {
        lemma_panics_keep_workers(workers, panicked.drop_last());
    }
}

} // verus!
