//! Worker selection for a fixed pool of worker threads.
//!
//! A thread pool dispatches jobs round-robin unless a job names the worker
//! it wants. The pool itself owns threads and channels and lives outside
//! this crate; the decision of which worker receives a job is taken here,
//! with an exact contract, so the pool's dispatch order is verified logic.

use vstd::prelude::*;

verus! {

/// The dispatch state of a pool: how many workers exist and which worker
/// receives the next round-robin job.
pub struct RoundRobin {
    workers: usize,
    current: usize,
}

impl RoundRobin {
    /// The number of worker slots.
    pub closed spec fn spec_workers(&self) -> usize {
        self.workers
    }

    /// The worker that receives the next job dispatched without a hint.
    pub closed spec fn spec_current(&self) -> usize {
        self.current
    }

    /// The dispatch state is sound: at least one worker, and the cursor
    /// inside the pool.
    pub open spec fn wf(&self) -> bool {
        1 <= self.spec_workers() && self.spec_current() < self.spec_workers()
    }

    pub fn new(workers: usize) -> (r: Self)
        requires
            1 <= workers,
        ensures
            r.wf(),
            r.spec_workers() == workers,
            r.spec_current() == 0,
    {
        Self { workers, current: 0 }
    }

    /// The number of worker slots.
    pub fn num_workers(&self) -> (r: usize)
        ensures
            r == self.spec_workers(),
    {
        self.workers
    }

    /// Pick the worker for one job. A hinted job goes to the hinted
    /// worker and leaves the round-robin cursor alone; a job without a
    /// hint goes to the current worker, and the cursor advances by one,
    /// wrapping around the pool.
    pub fn assign(&mut self, hint: Option<usize>) -> (w: usize)
        requires
            old(self).wf(),
            (match hint {
                Some(i) => i < old(self).spec_workers(),
                None => true,
            }),
        ensures
            final(self).wf(),
            final(self).spec_workers() == old(self).spec_workers(),
            w < old(self).spec_workers(),
            (match hint {
                Some(i) => w == i && final(self).spec_current() == old(self).spec_current(),
                None => w == old(self).spec_current() && final(self).spec_current() == (old(
                    self).spec_current() + 1) % (old(self).spec_workers() as int),
            }),
    {
        match hint {
            Some(i) => i,
            None => {
                let w = self.current;
                self.current = (self.current + 1) % self.workers;
                w
            },
        }
    }
}

} // verus!
