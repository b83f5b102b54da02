//! A wrapper that runs every execution twice and checks that the program
//! under test behaves the same way both times.
use vstd::prelude::*;
use crate::rng::{DataSource, random_value};
use crate::schedule::Schedule;
use crate::scheduler::Scheduler;
use crate::task::{TaskId, copy_tasks, same_members, same_task_set};

verus! {

/// What the engine offered and the scheduler answered at one call.
#[derive(Clone, Debug)]
pub enum Observed {
    Decision(Vec<TaskId>, Option<TaskId>),
    Value(u64),
}

/// Mathematical content of an `Observed`.
pub ghost enum ObservedView {
    Decision(Seq<TaskId>, Option<TaskId>),
    Value(u64),
}

impl View for Observed {
    type V = ObservedView;

    open spec fn view(&self) -> ObservedView {
        match self {
            Observed::Decision(rs, c) => ObservedView::Decision(rs@, *c),
            Observed::Value(v) => ObservedView::Value(*v),
        }
    }
}

/// The call at `pos` of the first pass was a decision among the same set of
/// tasks as `runnable`.
pub open spec fn same_offer(rec: Seq<ObservedView>, pos: int, runnable: Seq<TaskId>) -> bool {
    &&& 0 <= pos < rec.len()
    &&& rec[pos] is Decision
    &&& same_members(rec[pos]->Decision_0, runnable)
}

/// Number of random values among the observed calls.
pub open spec fn count_observed_values(rec: Seq<ObservedView>) -> nat
    decreases rec.len(),
{
    if rec.len() == 0 {
        0
    } else {
        count_observed_values(rec.drop_last()) + if rec.last() is Value {
            1nat
        } else {
            0nat
        }
    }
}

/// Every value recorded is the value of `seed` at its rank among the values.
pub open spec fn values_follow_seed(rec: Seq<ObservedView>, seed: u64) -> bool {
    forall|k: int|
        0 <= k < rec.len() && #[trigger] rec[k] is Value ==> rec[k]->Value_0 == random_value(
            seed,
            count_observed_values(rec.subrange(0, k)),
        )
}

/// Which pass of a pair of executions is running.
#[derive(Clone, Copy, Debug, PartialEq, Eq, Structural)]
pub enum Pass {
    /// No execution has started yet.
    Idle,
    /// The wrapped scheduler decides, and every call is recorded.
    First,
    /// The recorded answers are given back and every call is checked.
    Second,
}

/// Runs each execution of the wrapped scheduler twice: once while recording
/// what the engine offers and what the wrapped scheduler answers, then again
/// while checking that the engine offers the same sets of runnable tasks and
/// asks for the same kinds of decisions in the same order. Any difference is
/// a determinism violation; the second pass then stops giving tasks.
///
/// The wrapped scheduler is asked only in the first pass. Its state has moved
/// on by then, and a second `new_execution` of it would start another
/// execution, not the same one again. So the second pass hands back the
/// answers it gave in the first pass: the same task at each decision, and
/// random values drawn again from the same seed, which equal the recorded
/// ones (the contract of `next_u64` states this). Whatever differs between
/// the passes therefore comes from the program under test, and is reported.
pub struct DeterminismCheckScheduler<S: Scheduler> {
    inner: S,
    pass: Pass,
    recorded: Vec<Observed>,
    pos: usize,
    schedule: Schedule,
    data: DataSource,
    stopped: bool,
    violation: bool,
}

impl<S: Scheduler> DeterminismCheckScheduler<S> {
    pub closed spec fn inner(&self) -> S {
        self.inner
    }

    pub closed spec fn pass(&self) -> Pass {
        self.pass
    }

    /// The schedule that the wrapped scheduler returned for the current pair.
    pub closed spec fn stored(&self) -> Schedule {
        self.schedule
    }

    /// Calls recorded in the first pass of the current pair.
    pub closed spec fn recorded(&self) -> Seq<ObservedView> {
        self.recorded@.map_values(|o: Observed| o@)
    }

    /// Calls checked so far in the second pass.
    pub closed spec fn position(&self) -> nat {
        self.pos as nat
    }

    /// The current second pass has departed from the first.
    pub closed spec fn has_stopped(&self) -> bool {
        self.stopped
    }

    pub closed spec fn has_violation(&self) -> bool {
        self.violation
    }

    pub fn new(inner: S) -> (r: DeterminismCheckScheduler<S>)
        requires
            inner.well_formed(),
        ensures
            r.well_formed(),
            r.inner() == inner,
            r.pass() == Pass::Idle,
            !r.has_violation(),
    {
        let r = DeterminismCheckScheduler {
            inner,
            pass: Pass::Idle,
            recorded: Vec::new(),
            pos: 0,
            schedule: Schedule::new(0),
            data: DataSource::new(0),
            stopped: false,
            violation: false,
        };
        proof {
            assert(r.recorded() =~= Seq::<ObservedView>::empty());
        }
        r
    }

    /// Whether a difference between two passes was seen.
    pub fn violation_detected(&self) -> (r: bool)
        ensures
            r == self.has_violation(),
    {
        self.violation
    }
}

impl<S: Scheduler> Scheduler for DeterminismCheckScheduler<S> {
    closed spec fn well_formed(&self) -> bool {
        &&& self.inner.well_formed()
        &&& self.data.wf()
        &&& self.pass == Pass::First ==> self.inner.data_seed() == self.schedule@.seed
            && self.inner.draws() == count_observed_values(self.recorded())
        &&& self.pass == Pass::Second ==> {
            &&& self.data.seed == self.schedule@.seed
            &&& self.pos <= self.recorded@.len()
            &&& !self.stopped ==> self.data.drawn@ == count_observed_values(
                self.recorded().subrange(0, self.pos as int),
            )
        }
        &&& values_follow_seed(self.recorded(), self.schedule@.seed)
        &&& forall|k: int|
            0 <= k < self.recorded@.len() ==> (#[trigger] self.recorded@[k]@ matches ObservedView::Decision(rs, Some(t)) ==> rs.contains(t))
    }

    closed spec fn data_seed(&self) -> u64 {
        if self.pass == Pass::Second {
            self.data.seed
        } else {
            self.inner.data_seed()
        }
    }

    closed spec fn draws(&self) -> nat {
        if self.pass == Pass::Second {
            self.data.drawn@
        } else {
            self.inner.draws()
        }
    }

    fn new_execution(&mut self) -> (r: Option<Schedule>)
        ensures
            final(self).has_violation() == old(self).has_violation(),
            old(self).pass() == Pass::First ==> {
                &&& r matches Some(s) && s@ == old(self).stored()@
                &&& final(self).stored() == old(self).stored()
                &&& final(self).pass() == Pass::Second
                &&& final(self).data_seed() == old(self).data_seed()
                &&& final(self).position() == 0
                &&& !final(self).has_stopped()
                &&& final(self).recorded() == old(self).recorded()
            },
            old(self).pass() != Pass::First && r is Some ==> {
                &&& r matches Some(s) && final(self).stored()@ == s@
                &&& final(self).pass() == Pass::First
                &&& final(self).recorded() == Seq::<ObservedView>::empty()
            },
    {
        if self.pass == Pass::First {
            self.pass = Pass::Second;
            self.pos = 0;
            self.stopped = false;
            self.data = DataSource::new(self.schedule.seed());
            proof {
                assert(self.recorded().subrange(0, 0) =~= Seq::<ObservedView>::empty());
            }
            return Some(self.schedule.duplicate());
        }
        match self.inner.new_execution() {
            None => None,
            Some(s) => {
                self.pass = Pass::First;
                self.recorded = Vec::new();
                self.pos = 0;
                self.schedule = s.duplicate();
                proof {
                    assert(self.recorded() =~= Seq::<ObservedView>::empty());
                }
                Some(s)
            },
        }
    }

    fn next_task(
        &mut self,
        runnable_tasks: &[TaskId],
        current_task: Option<TaskId>,
        is_yielding: bool,
    ) -> (r: Option<TaskId>)
        ensures
            final(self).pass() == old(self).pass(),
            final(self).stored() == old(self).stored(),
            old(self).pass() == Pass::First ==> {
                &&& final(self).recorded() == old(self).recorded().push(
                    ObservedView::Decision(runnable_tasks@, r),
                )
                &&& final(self).has_violation() == old(self).has_violation()
            },
            old(self).pass() == Pass::Second ==> {
                let pos = old(self).position() as int;
                let rec = old(self).recorded();
                &&& final(self).recorded() == rec
                &&& if !old(self).has_stopped() && same_offer(rec, pos, runnable_tasks@) {
                    &&& r == rec[pos]->Decision_1
                    &&& final(self).position() == pos + 1
                    &&& final(self).has_violation() == old(self).has_violation()
                    &&& !final(self).has_stopped()
                } else {
                    r is None && final(self).has_violation() && final(self).has_stopped()
                }
            },
    {
        match self.pass {
            Pass::Idle => self.inner.next_task(runnable_tasks, current_task, is_yielding),
            Pass::First => {
                let r = self.inner.next_task(runnable_tasks, current_task, is_yielding);
                let ghost before = self.recorded();
                self.recorded.push(Observed::Decision(copy_tasks(runnable_tasks), r));
                proof {
                    assert(self.recorded() =~= before.push(ObservedView::Decision(runnable_tasks@, r)));
                    assert(self.recorded().drop_last() =~= before);
                    assert forall|k: int|
                        0 <= k < self.recorded().len() && #[trigger] self.recorded()[k] is Value implies self.recorded()[k]->Value_0
                            == random_value(self.schedule@.seed, count_observed_values(self.recorded().subrange(0, k))) by {
                        assert(self.recorded().subrange(0, k) =~= before.subrange(0, k));
                    }
                }
                r
            },
            Pass::Second => {
                if !self.stopped && self.pos < self.recorded.len() {
                    if let Observed::Decision(rs, c) = &self.recorded[self.pos] {
                        if same_task_set(rs.as_slice(), runnable_tasks) {
                            let c = *c;
                            proof {
                                let rec = self.recorded();
                                assert(self.recorded@[self.pos as int]@ == rec[self.pos as int]);
                                assert(rec.subrange(0, self.pos + 1).drop_last() =~= rec.subrange(0, self.pos as int));
                            }
                            self.pos = self.pos + 1;
                            return c;
                        }
                    }
                }
                proof {
                    if self.pos < self.recorded@.len() {
                        assert(self.recorded@[self.pos as int]@ == self.recorded()[self.pos as int]);
                    }
                }
                self.stopped = true;
                self.violation = true;
                None
            },
        }
    }

    fn next_u64(&mut self) -> (r: u64)
        ensures
            final(self).pass() == old(self).pass(),
            final(self).stored() == old(self).stored(),
            old(self).pass() == Pass::First ==> {
                &&& final(self).recorded() == old(self).recorded().push(ObservedView::Value(r))
                &&& final(self).has_violation() == old(self).has_violation()
            },
            old(self).pass() == Pass::Second ==> {
                let pos = old(self).position() as int;
                let rec = old(self).recorded();
                &&& final(self).recorded() == rec
                &&& if !old(self).has_stopped() && 0 <= pos < rec.len() && rec[pos] is Value {
                    &&& r == rec[pos]->Value_0
                    &&& final(self).position() == pos + 1
                    &&& final(self).has_violation() == old(self).has_violation()
                    &&& !final(self).has_stopped()
                } else {
                    final(self).has_violation() && final(self).has_stopped()
                }
            },
    {
        match self.pass {
            Pass::Idle => self.inner.next_u64(),
            Pass::First => {
                let v = self.inner.next_u64();
                let ghost before = self.recorded();
                self.recorded.push(Observed::Value(v));
                proof {
                    assert(self.recorded() =~= before.push(ObservedView::Value(v)));
                    assert(self.recorded().drop_last() =~= before);
                    assert forall|k: int|
                        0 <= k < self.recorded().len() && #[trigger] self.recorded()[k] is Value implies self.recorded()[k]->Value_0
                            == random_value(self.schedule@.seed, count_observed_values(self.recorded().subrange(0, k))) by {
                        assert(self.recorded().subrange(0, k) =~= before.subrange(0, k));
                        if k == before.len() {
                            assert(self.recorded().subrange(0, k) =~= before);
                        }
                    }
                }
                v
            },
            Pass::Second => {
                let v = self.data.next_u64();
                if !self.stopped && self.pos < self.recorded.len() {
                    if let Observed::Value(w) = &self.recorded[self.pos] {
                        proof {
                            let rec = self.recorded();
                            assert(self.recorded@[self.pos as int]@ == rec[self.pos as int]);
                            assert(rec.subrange(0, self.pos + 1).drop_last() =~= rec.subrange(0, self.pos as int));
                            assert(rec[self.pos as int] is Value);
                        }
                        if *w == v {
                            self.pos = self.pos + 1;
                            return v;
                        }
                    }
                }
                proof {
                    if self.pos < self.recorded@.len() {
                        assert(self.recorded@[self.pos as int]@ == self.recorded()[self.pos as int]);
                    }
                }
                self.stopped = true;
                self.violation = true;
                v
            },
        }
    }
}

} // verus!
