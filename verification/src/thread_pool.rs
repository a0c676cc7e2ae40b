//! The worker-pool interface of the server.

use vstd::prelude::*;

use crate::error::KvsError;

verus! {

/// A fixed-size pool of workers executing submitted jobs.  The runtime
/// shell implements it over operating-system threads; a worker that
/// panics while running a job must be replaced, so the pool's effective
/// concurrency does not drift downward.
pub trait ThreadPool: Sized {
    /// Builds a pool with the given number of workers.
    fn new(threads: u32) -> Result<Self, KvsError>;

    /// Hands a job to the pool.
    fn spawn<F: FnOnce() + Send + 'static>(&self, job: F);
}

/// A marker for the simplest pool: one fresh worker per job, no reuse.
/// Spawning operating-system threads is the runtime shell's work, so the
/// shell provides this pool's `ThreadPool` implementation.
pub struct NaiveThreadPool;

} // verus!
