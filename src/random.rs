//! Uniform random choice among the runnable tasks.
use vstd::prelude::*;
use crate::rng::{DataSource, Rng, xorshift};
use crate::schedule::Schedule;
use crate::scheduler::Scheduler;
use crate::task::TaskId;

verus! {

/// The generator state after a random pick among `n` tasks and the index
/// picked. A yielding task that is picked gets one redraw.
pub open spec fn random_pick(
    state: u64,
    runnable: Seq<TaskId>,
    current: Option<TaskId>,
    is_yielding: bool,
) -> (u64, int) {
    let n = runnable.len() as int;
    let s1 = xorshift(state);
    let i = s1 as int % n;
    if is_yielding && n > 1 && current == Some(runnable[i]) {
        let s2 = xorshift(s1);
        (s2, s2 as int % n)
    } else {
        (s1, i)
    }
}

/// Picks uniformly at random among the runnable tasks, for a bounded number
/// of executions.
pub struct RandomScheduler {
    rng: Rng,
    data: DataSource,
    iterations: usize,
    max_iterations: usize,
}

impl RandomScheduler {
    /// State of the generator that drives the choices.
    pub closed spec fn rng_state(&self) -> u64 {
        self.rng.state
    }

    pub closed spec fn iterations(&self) -> nat {
        self.iterations as nat
    }

    pub closed spec fn max_iterations(&self) -> nat {
        self.max_iterations as nat
    }

    pub fn new(max_iterations: usize, seed: u64) -> (r: RandomScheduler)
        ensures
            r.well_formed(),
            r.rng_state() == crate::rng::seed_state(seed),
            r.iterations() == 0,
            r.max_iterations() == max_iterations,
            r.data_seed() == seed,
            r.draws() == 0,
    {
        RandomScheduler {
            rng: Rng::seeded(seed),
            data: DataSource::new(seed),
            iterations: 0,
            max_iterations,
        }
    }
}

impl Scheduler for RandomScheduler {
    closed spec fn well_formed(&self) -> bool {
        self.data.wf()
    }

    closed spec fn data_seed(&self) -> u64 {
        self.data.seed
    }

    closed spec fn draws(&self) -> nat {
        self.data.drawn@
    }

    fn new_execution(&mut self) -> (r: Option<Schedule>)
        ensures
            final(self).max_iterations() == old(self).max_iterations(),
            old(self).iterations() >= old(self).max_iterations() ==> r is None
                && final(self).iterations() == old(self).iterations()
                && final(self).rng_state() == old(self).rng_state(),
            old(self).iterations() < old(self).max_iterations() ==> {
                &&& r matches Some(s) && s@.seed == xorshift(old(self).rng_state())
                    && s@.steps.len() == 0
                &&& final(self).rng_state() == xorshift(old(self).rng_state())
                &&& final(self).iterations() == old(self).iterations() + 1
            },
    {
        if self.iterations >= self.max_iterations {
            return None;
        }
        self.iterations = self.iterations + 1;
        let seed = self.rng.next_u64();
        self.data = DataSource::new(seed);
        Some(Schedule::new(seed))
    }

    fn next_task(
        &mut self,
        runnable_tasks: &[TaskId],
        current_task: Option<TaskId>,
        is_yielding: bool,
    ) -> (r: Option<TaskId>)
        ensures
            final(self).iterations() == old(self).iterations(),
            final(self).max_iterations() == old(self).max_iterations(),
            ({
                let p = random_pick(old(self).rng_state(), runnable_tasks@, current_task, is_yielding);
                r == Some(runnable_tasks@[p.1]) && final(self).rng_state() == p.0
            }),
    {
        let n = runnable_tasks.len();
        let mut i = self.rng.below(n);
        if is_yielding && n > 1 && current_task == Some(runnable_tasks[i]) {
            i = self.rng.below(n);
        }
        Some(runnable_tasks[i])
    }

    fn next_u64(&mut self) -> (r: u64) {
        self.data.next_u64()
    }
}

} // verus!
