//! Exact replay of a recorded schedule.
use vstd::prelude::*;
use crate::rng::{DataSource, random_value};
use crate::schedule::{Schedule, ScheduleStep, ScheduleView, count_random};
use crate::scheduler::Scheduler;
use crate::task::{TaskId, contains_task};

verus! {

/// What a scheduler answered at one call of an execution.
pub ghost enum Answer {
    Chose(TaskId),
    Value(u64),
}

/// Number of random values among `answers`.
pub open spec fn count_values(answers: Seq<Answer>) -> nat
    decreases answers.len(),
{
    if answers.len() == 0 {
        0
    } else {
        count_values(answers.drop_last()) + if answers.last() is Value {
            1nat
        } else {
            0nat
        }
    }
}

/// The steps that the engine records for `answers`: a task step for each
/// chosen task and a random step for each value.
pub open spec fn recorded_steps(answers: Seq<Answer>) -> Seq<ScheduleStep> {
    answers.map_values(
        |a: Answer|
            match a {
                Answer::Chose(t) => ScheduleStep::Task(t),
                Answer::Value(_) => ScheduleStep::Random,
            },
    )
}

/// The answers that replaying `s` hands back: each task step's task, and at
/// the `k`-th random step the `k`-th value of the seed.
pub open spec fn encoded(s: ScheduleView) -> Seq<Answer> {
    Seq::new(
        s.steps.len(),
        |i: int|
            match s.steps[i] {
                ScheduleStep::Task(t) => Answer::Chose(t),
                ScheduleStep::Random => Answer::Value(
                    random_value(s.seed, count_random(s.steps.subrange(0, i))),
                ),
            },
    )
}

proof fn lemma_counts_agree(answers: Seq<Answer>)
    ensures
        count_random(recorded_steps(answers)) == count_values(answers),
    decreases answers.len(),
{
    if answers.len() > 0 {
        lemma_counts_agree(answers.drop_last());
        assert(recorded_steps(answers).drop_last() =~= recorded_steps(answers.drop_last()));
    }
}

/// Replay fidelity. Whatever strategy ran an execution, its `k`-th random
/// value was the `k`-th value of the seed of the schedule that
/// `new_execution` returned (`Scheduler::next_u64` promises it). When the
/// engine records that execution's answers as steps under that seed, the
/// schedule encodes exactly those answers, and a `ReplayScheduler` hands them
/// back in order as long as each recorded task is offered again.
pub proof fn lemma_replay_fidelity(seed: u64, answers: Seq<Answer>)
    requires
        forall|i: int|
            0 <= i < answers.len() && #[trigger] answers[i] is Value ==> answers[i]->Value_0
                == random_value(seed, count_values(answers.subrange(0, i))),
    ensures
        encoded(ScheduleView { seed, steps: recorded_steps(answers) }) == answers,
{
    let s = ScheduleView { seed, steps: recorded_steps(answers) };
    assert forall|i: int| 0 <= i < answers.len() implies #[trigger] encoded(s)[i] == answers[i] by {
        assert(recorded_steps(answers).subrange(0, i) =~= recorded_steps(answers.subrange(0, i)));
        lemma_counts_agree(answers.subrange(0, i));
    }
    assert(encoded(s) =~= answers);
}

/// Makes every decision reproduce a recorded schedule. A recorded task that
/// is not runnable, or a step of the other kind than the one asked for, is a
/// divergence: the scheduler stops and reports it through `diverged`.
pub struct ReplayScheduler {
    schedule: Schedule,
    pos: usize,
    data: DataSource,
    started: bool,
    diverged: bool,
}

impl ReplayScheduler {
    /// The recorded schedule.
    pub closed spec fn recorded(&self) -> Schedule {
        self.schedule
    }

    /// Number of steps replayed in the current execution.
    pub closed spec fn position(&self) -> nat {
        self.pos as nat
    }

    pub closed spec fn has_diverged(&self) -> bool {
        self.diverged
    }

    pub closed spec fn has_started(&self) -> bool {
        self.started
    }

    pub fn new(schedule: &Schedule) -> (r: ReplayScheduler)
        ensures
            r.well_formed(),
            r.recorded()@ == schedule@,
            r.position() == 0,
            !r.has_diverged(),
            !r.has_started(),
            r.data_seed() == schedule@.seed,
            r.draws() == 0,
    {
        ReplayScheduler {
            schedule: schedule.duplicate(),
            pos: 0,
            data: DataSource::new(schedule.seed()),
            started: false,
            diverged: false,
        }
    }

    /// Whether the live execution departed from the recorded schedule.
    pub fn diverged(&self) -> (r: bool)
        ensures
            r == self.has_diverged(),
    {
        self.diverged
    }
}

impl Scheduler for ReplayScheduler {
    closed spec fn well_formed(&self) -> bool {
        &&& self.data.wf()
        &&& self.data.seed == self.schedule@.seed
        &&& self.pos <= self.schedule@.steps.len()
        &&& !self.diverged ==> self.data.drawn@ == count_random(
            self.schedule@.steps.subrange(0, self.pos as int),
        )
    }

    closed spec fn data_seed(&self) -> u64 {
        self.data.seed
    }

    closed spec fn draws(&self) -> nat {
        self.data.drawn@
    }

    fn new_execution(&mut self) -> (r: Option<Schedule>)
        ensures
            old(self).has_started() ==> r is None && *final(self) == *old(self),
            !old(self).has_started() ==> {
                &&& r matches Some(s) && s@ == old(self).recorded()@
                &&& final(self).recorded() == old(self).recorded()
                &&& final(self).position() == 0
                &&& !final(self).has_diverged()
                &&& final(self).has_started()
            },
    {
        if self.started {
            return None;
        }
        self.started = true;
        self.pos = 0;
        self.diverged = false;
        self.data = DataSource::new(self.schedule.seed());
        proof {
            assert(self.schedule@.steps.subrange(0, 0) =~= Seq::<ScheduleStep>::empty());
        }
        Some(self.schedule.duplicate())
    }

    fn next_task(
        &mut self,
        runnable_tasks: &[TaskId],
        current_task: Option<TaskId>,
        is_yielding: bool,
    ) -> (r: Option<TaskId>)
        ensures
            final(self).recorded() == old(self).recorded(),
            final(self).has_started() == old(self).has_started(),
            old(self).has_diverged() ==> r is None && final(self).has_diverged(),
            !old(self).has_diverged() && old(self).position() == old(self).recorded()@.steps.len()
                ==> r is None && !final(self).has_diverged()
                && final(self).position() == old(self).position(),
            !old(self).has_diverged() && old(self).position() < old(self).recorded()@.steps.len()
                ==> {
                let step = old(self).recorded()@.steps[old(self).position() as int];
                match step {
                    ScheduleStep::Task(t) => if runnable_tasks@.contains(t) {
                        r == Some(t) && !final(self).has_diverged() && final(self).position()
                            == old(self).position() + 1 && encoded(old(self).recorded()@)[old(
                        self).position() as int] == Answer::Chose(t)
                    } else {
                        r is None && final(self).has_diverged()
                    },
                    ScheduleStep::Random => r is None && final(self).has_diverged(),
                }
            },
    {
        if self.diverged || self.pos >= self.schedule.len() {
            return None;
        }
        match self.schedule.step(self.pos) {
            ScheduleStep::Task(t) => {
                if contains_task(runnable_tasks, t) {
                    proof {
                        let s = self.schedule@.steps;
                        assert(s.subrange(0, self.pos + 1).drop_last() =~= s.subrange(
                            0,
                            self.pos as int,
                        ));
                    }
                    self.pos = self.pos + 1;
                    Some(t)
                } else {
                    self.diverged = true;
                    None
                }
            },
            ScheduleStep::Random => {
                self.diverged = true;
                None
            },
        }
    }

    fn next_u64(&mut self) -> (r: u64)
        ensures
            final(self).recorded() == old(self).recorded(),
            final(self).has_started() == old(self).has_started(),
            !old(self).has_diverged() && old(self).position() < old(self).recorded()@.steps.len()
                && old(self).recorded()@.steps[old(self).position() as int] is Random ==> {
                &&& !final(self).has_diverged()
                &&& final(self).position() == old(self).position() + 1
                &&& r == random_value(
                    old(self).recorded()@.seed,
                    count_random(
                        old(self).recorded()@.steps.subrange(0, old(self).position() as int),
                    ),
                )
                &&& encoded(old(self).recorded()@)[old(self).position() as int] == Answer::Value(r)
            },
            !(!old(self).has_diverged() && old(self).position()
                < old(self).recorded()@.steps.len() && old(self).recorded()@.steps[old(
            self).position() as int] is Random) ==> final(self).has_diverged(),
    {
        let v = self.data.next_u64();
        if !self.diverged && self.pos < self.schedule.len() {
            if let ScheduleStep::Random = self.schedule.step(self.pos) {
                proof {
                    let s = self.schedule@.steps;
                    assert(s.subrange(0, self.pos + 1).drop_last() =~= s.subrange(
                        0,
                        self.pos as int,
                    ));
                }
                self.pos = self.pos + 1;
                return v;
            }
        }
        self.diverged = true;
        v
    }
}

} // verus!
