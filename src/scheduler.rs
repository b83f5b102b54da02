//! The interface that every scheduling strategy implements.
use vstd::prelude::*;
use crate::rng::random_value;
use crate::schedule::Schedule;
use crate::task::TaskId;

verus! {

/// An oracle that decides the order in which concurrent tasks run and the
/// random values they observe.
///
/// One instance lives across many executions of a test. At the start of each
/// execution the engine calls `new_execution`; then, at every scheduling
/// point, `next_task`, and for every random value, `next_u64`.
///
/// Every strategy hands out as random values the sequence that the seed of
/// the schedule returned by `new_execution` determines, so that a recorded
/// schedule reproduces them.
pub trait Scheduler {
    /// The strategy's internal invariant.
    spec fn well_formed(&self) -> bool;

    /// Seed of the random values of the current execution.
    spec fn data_seed(&self) -> u64;

    /// Number of random values handed out in the current execution.
    spec fn draws(&self) -> nat;

    /// Starts an execution. `None` ends testing; `Some(schedule)` carries the
    /// seed from which this execution's random values come.
    fn new_execution(&mut self) -> (r: Option<Schedule>)
        requires
            old(self).well_formed(),
        ensures
            final(self).well_formed(),
            r matches Some(s) ==> s@.seed == final(self).data_seed() && final(self).draws() == 0,
    ;

    /// Picks the task to run next among the non-empty `runnable_tasks`, or
    /// `None` to stop exploring this execution.
    fn next_task(
        &mut self,
        runnable_tasks: &[TaskId],
        current_task: Option<TaskId>,
        is_yielding: bool,
    ) -> (r: Option<TaskId>)
        requires
            old(self).well_formed(),
            runnable_tasks@.len() > 0,
        ensures
            final(self).well_formed(),
            final(self).data_seed() == old(self).data_seed(),
            final(self).draws() == old(self).draws(),
            r matches Some(t) ==> runnable_tasks@.contains(t),
    ;

    /// The next random value for the running task.
    fn next_u64(&mut self) -> (r: u64)
        requires
            old(self).well_formed(),
        ensures
            final(self).well_formed(),
            final(self).data_seed() == old(self).data_seed(),
            final(self).draws() == old(self).draws() + 1,
            r == random_value(old(self).data_seed(), old(self).draws()),
    ;
}

} // verus!
