//! Job accounting of a thread pool.

use vstd::prelude::*;

verus! {

/// The number of jobs that are queued or running in a thread pool. The workers report to it that
/// they started or finished a job, and `join` waits until it drops to zero.
#[derive(Debug)]
pub struct ThreadPoolInner {
    job_count: usize,
}

impl ThreadPoolInner {
    /// The number of unfinished jobs.
    pub closed spec fn job_count(&self) -> nat {
        self.job_count as nat
    }

    /// No job.
    pub fn new() -> (r: Self)
        ensures
            r.job_count() == 0,
    {
        ThreadPoolInner { job_count: 0 }
    }

    /// The number of unfinished jobs.
    pub fn jobs(&self) -> (r: usize)
        ensures
            r == self.job_count(),
    {
        self.job_count
    }

    /// Increments the job count.
    pub fn start_job(&mut self)
        requires
            old(self).job_count() < usize::MAX,
        ensures
            final(self).job_count() == old(self).job_count() + 1,
    {
        self.job_count = self.job_count + 1;
    }

    /// Decrements the job count.
    pub fn finish_job(&mut self)
        requires
            old(self).job_count() > 0,
        ensures
            final(self).job_count() == old(self).job_count() - 1,
    {
        self.job_count = self.job_count - 1;
    }

    /// Whether a thread waiting for the job count to become zero may stop waiting: `true` iff no
    /// job is left. A waiter checks this each time it is woken up.
    pub fn wait_empty(&self) -> (r: bool)
        ensures
            r == (self.job_count() == 0),
    {
        self.job_count == 0
    }
}

impl Default for ThreadPoolInner {
    fn default() -> (r: Self)
        ensures
            r.job_count() == 0,
    {
        Self::new()
    }
}

} // verus!
