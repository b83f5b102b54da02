//! The replayable record of one execution: its seed and the ordered steps.
use vstd::prelude::*;
use crate::task::{TaskId, ids_increasing, insert_by_id, lemma_increasing_unique};

verus! {

/// One recorded decision: a task was chosen, or a random value was served.
#[derive(Clone, Copy, Debug, PartialEq, Eq, Hash, Structural)]
pub enum ScheduleStep {
    Task(TaskId),
    Random,
}

/// Mathematical content of a `Schedule`.
pub ghost struct ScheduleView {
    pub seed: u64,
    pub steps: Seq<ScheduleStep>,
}

/// Number of `Random` steps in `steps`.
pub open spec fn count_random(steps: Seq<ScheduleStep>) -> nat
    decreases steps.len(),
{
    if steps.len() == 0 {
        0
    } else {
        count_random(steps.drop_last()) + if steps.last() is Random {
            1nat
        } else {
            0nat
        }
    }
}

/// Steps that schedule the given tasks in order.
pub open spec fn task_steps(ids: Seq<TaskId>) -> Seq<ScheduleStep> {
    Seq::new(ids.len(), |i: int| ScheduleStep::Task(ids[i]))
}

/// The order of execution of tasks and random draws, with its seed.
#[derive(Clone, Debug, Default)]
pub struct Schedule {
    seed: u64,
    steps: Vec<ScheduleStep>,
}

impl View for Schedule {
    type V = ScheduleView;

    closed spec fn view(&self) -> ScheduleView {
        ScheduleView { seed: self.seed, steps: self.steps@ }
    }
}

impl PartialEq for Schedule {
    fn eq(&self, o: &Schedule) -> (r: bool) {
        if self.seed != o.seed || self.steps.len() != o.steps.len() {
            return false;
        }
        let mut i: usize = 0;
        while i < self.steps.len()
            invariant
                0 <= i <= self.steps@.len(),
                self.steps@.len() == o.steps@.len(),
                forall|j: int| 0 <= j < i ==> self.steps@[j] == o.steps@[j],
            decreases self.steps@.len() - i,
        {
            if self.steps[i] != o.steps[i] {
                return false;
            }
            i = i + 1;
        }
        assert(self.steps@ =~= o.steps@);
        true
    }
}

impl vstd::std_specs::cmp::PartialEqSpecImpl for Schedule {
    open spec fn obeys_eq_spec() -> bool {
        true
    }

    open spec fn eq_spec(&self, o: &Schedule) -> bool {
        self@ == o@
    }
}

impl Eq for Schedule {
}

impl Schedule {
    /// An empty schedule that starts with the given random seed.
    pub fn new(seed: u64) -> (r: Schedule)
        ensures
            r@.seed == seed,
            r@.steps == Seq::<ScheduleStep>::empty(),
    {
        Schedule { seed, steps: Vec::new() }
    }

    /// A schedule that begins by scheduling the given tasks.
    pub fn new_from_task_ids(seed: u64, task_ids: &[TaskId]) -> (r: Schedule)
        ensures
            r@.seed == seed,
            r@.steps == task_steps(task_ids@),
    {
        let mut steps: Vec<ScheduleStep> = Vec::new();
        let mut i: usize = 0;
        while i < task_ids.len()
            invariant
                0 <= i <= task_ids@.len(),
                steps@ == task_steps(task_ids@.subrange(0, i as int)),
            decreases task_ids@.len() - i,
        {
            steps.push(ScheduleStep::Task(task_ids[i]));
            i = i + 1;
            assert(steps@ =~= task_steps(task_ids@.subrange(0, i as int)));
        }
        assert(task_ids@.subrange(0, task_ids@.len() as int) =~= task_ids@);
        Schedule { seed, steps }
    }

    /// Appends a task choice.
    pub fn push_task(&mut self, task: TaskId)
        ensures
            final(self)@.seed == old(self)@.seed,
            final(self)@.steps == old(self)@.steps.push(ScheduleStep::Task(task)),
    {
        self.steps.push(ScheduleStep::Task(task));
    }

    /// Appends a random-value step.
    pub fn push_random(&mut self)
        ensures
            final(self)@.seed == old(self)@.seed,
            final(self)@.steps == old(self)@.steps.push(ScheduleStep::Random),
    {
        self.steps.push(ScheduleStep::Random);
    }

    /// Number of steps.
    pub fn len(&self) -> (r: usize)
        ensures
            r == self@.steps.len(),
    {
        self.steps.len()
    }

    /// Whether there are no steps.
    pub fn is_empty(&self) -> (r: bool)
        ensures
            r == (self@.steps.len() == 0),
    {
        self.steps.len() == 0
    }

    /// The seed of the random values.
    pub fn seed(&self) -> (r: u64)
        ensures
            r == self@.seed,
    {
        self.seed
    }

    /// The step at position `i`.
    pub fn step(&self, i: usize) -> (r: ScheduleStep)
        requires
            i < self@.steps.len(),
        ensures
            r == self@.steps[i as int],
    {
        self.steps[i]
    }

    /// A copy with the same seed and steps.
    pub fn duplicate(&self) -> (r: Schedule)
        ensures
            r@ == self@,
    {
        let mut steps: Vec<ScheduleStep> = Vec::new();
        let mut i: usize = 0;
        while i < self.steps.len()
            invariant
                0 <= i <= self.steps@.len(),
                steps@ == self.steps@.subrange(0, i as int),
            decreases self.steps@.len() - i,
        {
            steps.push(self.steps[i]);
            i = i + 1;
            assert(steps@ =~= self.steps@.subrange(0, i as int));
        }
        assert(steps@ =~= self.steps@);
        Schedule { seed: self.seed, steps }
    }
}

/// A chosen step together with the set of tasks that could run when it was
/// chosen, held as a sequence of increasing ids.
#[derive(Clone, Debug, PartialEq, Eq)]
pub struct ScheduleRecord {
    pub step: ScheduleStep,
    pub runnable_tasks: Vec<TaskId>,
}

impl ScheduleRecord {
    /// A record of `step` taken among `options`; order and repetition in
    /// `options` do not matter.
    pub fn new(step: ScheduleStep, options: &[TaskId]) -> (r: ScheduleRecord)
        ensures
            r.step == step,
            ids_increasing(r.runnable_tasks@),
            forall|t: TaskId| #[trigger]
                r.runnable_tasks@.contains(t) <==> options@.contains(t),
    {
        let mut runnable_tasks: Vec<TaskId> = Vec::new();
        let mut i: usize = 0;
        while i < options.len()
            invariant
                0 <= i <= options@.len(),
                ids_increasing(runnable_tasks@),
                forall|t: TaskId| #[trigger]
                    runnable_tasks@.contains(t) <==> options@.subrange(0, i as int).contains(t),
            decreases options@.len() - i,
        {
            let ghost before = runnable_tasks@;
            insert_by_id(&mut runnable_tasks, options[i]);
            proof {
                let p = options@.subrange(0, i as int);
                let q = options@.subrange(0, i as int + 1);
                assert forall|t: TaskId| q.contains(t) <==> (p.contains(t) || t == options@[i as int]) by {
                    if q.contains(t) {
                        let k = choose|k: int| 0 <= k < q.len() && q[k] == t;
                        if k < i {
                            assert(p[k] == t);
                        }
                    }
                    if p.contains(t) {
                        let k = choose|k: int| 0 <= k < p.len() && p[k] == t;
                        assert(q[k] == t);
                    }
                    if t == options@[i as int] {
                        assert(q[i as int] == t);
                    }
                }
            }
            i = i + 1;
        }
        proof {
            assert(options@.subrange(0, options@.len() as int) =~= options@);
        }
        ScheduleRecord { step, runnable_tasks }
    }
}

/// Records built from the same step and the same set of options are equal,
/// whatever the order and repetition of the options.
pub proof fn lemma_record_of_set(r1: ScheduleRecord, r2: ScheduleRecord, o1: Seq<TaskId>, o2: Seq<TaskId>)
    requires
        r1.step == r2.step,
        ids_increasing(r1.runnable_tasks@),
        ids_increasing(r2.runnable_tasks@),
        forall|t: TaskId| #[trigger] r1.runnable_tasks@.contains(t) <==> o1.contains(t),
        forall|t: TaskId| #[trigger] r2.runnable_tasks@.contains(t) <==> o2.contains(t),
        forall|t: TaskId| o1.contains(t) <==> o2.contains(t),
    ensures
        r1.runnable_tasks@ == r2.runnable_tasks@,
{
    lemma_increasing_unique(r1.runnable_tasks@, r2.runnable_tasks@);
}

} // verus!
