//! Fixed-order rotation: the least recently scheduled runnable task runs.
use vstd::prelude::*;
use crate::rng::DataSource;
use crate::schedule::Schedule;
use crate::scheduler::Scheduler;
use crate::task::{TaskId, contains_task, extend_unique, extend_unique_into, lemma_extend_unique};

verus! {

/// `j` is the first position of `order` that holds a runnable task.
pub open spec fn first_runnable(order: Seq<TaskId>, runnable: Seq<TaskId>, j: int) -> bool {
    &&& 0 <= j < order.len()
    &&& runnable.contains(order[j])
    &&& forall|k: int| 0 <= k < j ==> !runnable.contains(#[trigger] order[k])
}

/// `order` with its element at `j` moved to the back.
pub open spec fn rotate(order: Seq<TaskId>, j: int) -> Seq<TaskId> {
    order.remove(j).push(order[j])
}

/// One rotation step keeps every other runnable task moving forward: a task
/// at position `i` of the rotation that was runnable and not chosen stands at
/// `i - 1` afterwards, and the chosen task goes to the back, behind every
/// distinct task seen so far. So a task that stays runnable is chosen again
/// after at most as many other decisions as there are distinct tasks, minus
/// one.
pub proof fn lemma_rotation_fair(order: Seq<TaskId>, runnable: Seq<TaskId>, j: int, i: int)
    requires
        first_runnable(order, runnable, j),
        0 <= i < order.len(),
        runnable.contains(order[i]),
        i != j,
    ensures
        0 < i,
        rotate(order, j)[i - 1] == order[i],
        rotate(order, j).len() == order.len(),
        rotate(order, j)[order.len() - 1] == order[j],
{
    if i < j {
        assert(!runnable.contains(order[i]));
    }
}

/// One decision of the rotation: `offer` extends rotation `o`, the first
/// runnable task `t` of it is chosen and moved to the back, giving `o2`.
pub open spec fn rotation_step(o: Seq<TaskId>, offer: Seq<TaskId>, o2: Seq<TaskId>, t: TaskId) -> bool {
    let ext = extend_unique(o, offer);
    exists|j: int| #[trigger] first_runnable(ext, offer, j) && o2 == rotate(ext, j) && t == ext[j]
}

/// Fairness over the decisions of one execution of `RoundRobinScheduler`,
/// stated over what its `next_task` promises (`rotation_step`): rotation
/// `orders[i]` met offer `offers[i]` and gave task `chosen[i]`. Starting
/// from the empty rotation of a new execution, a task chosen at the first
/// decision and runnable at every later one is chosen again within the next
/// `n` decisions, `n` being the number of distinct tasks offered in the run.
pub proof fn lemma_round_robin_fair(
    orders: Seq<Seq<TaskId>>,
    offers: Seq<Seq<TaskId>>,
    chosen: Seq<TaskId>,
    t: TaskId,
)
    requires
        orders.len() == offers.len() + 1,
        chosen.len() == offers.len(),
        orders[0].no_duplicates(),
        forall|i: int| 0 <= i < offers.len() ==> #[trigger] rotation_step(orders[i], offers[i], orders[i + 1], chosen[i]),
        offers.len() > orders[offers.len() as int].len(),
        chosen[0] == t,
        forall|i: int| 1 <= i < offers.len() ==> #[trigger] offers[i].contains(t),
    ensures
        exists|i: int| 1 <= i <= orders[offers.len() as int].len() && chosen[i] == t,
{
    let picks = Seq::new(
        offers.len(),
        |i: int|
            choose|j: int| #[trigger] first_runnable(extend_unique(orders[i], offers[i]), offers[i], j)
                && orders[i + 1] == rotate(extend_unique(orders[i], offers[i]), j)
                && chosen[i] == extend_unique(orders[i], offers[i])[j],
    );
    assert forall|i: int| 0 <= i < offers.len() implies {
        let ext = #[trigger] extend_unique(orders[i], offers[i]);
        &&& first_runnable(ext, offers[i], picks[i])
        &&& orders[i + 1] == rotate(ext, picks[i])
        &&& chosen[i] == ext[picks[i]]
    } by {
        assert(rotation_step(orders[i], offers[i], orders[i + 1], chosen[i]));
    }
    assert(rotation_run(orders, offers, picks));
    lemma_rotation_run_fair(orders, offers, picks, t);
    let i = choose|i: int|
        1 <= i <= orders[offers.len() as int].len() && chosen_at(orders, offers, picks, i) == t;
    assert(chosen[i] == t);
}

/// `orders[i + 1]` is the rotation after decision `i`, which offered
/// `offers[i]` to the rotation `orders[i]` and took position `picks[i]`, as
/// `RoundRobinScheduler::next_task` does.
pub open spec fn rotation_run(
    orders: Seq<Seq<TaskId>>,
    offers: Seq<Seq<TaskId>>,
    picks: Seq<int>,
) -> bool {
    &&& orders.len() == offers.len() + 1
    &&& picks.len() == offers.len()
    &&& orders[0].no_duplicates()
    &&& forall|i: int|
        0 <= i < offers.len() ==> {
            let ext = #[trigger] extend_unique(orders[i], offers[i]);
            &&& first_runnable(ext, offers[i], picks[i])
            &&& orders[i + 1] == rotate(ext, picks[i])
        }
}

/// The task chosen at decision `i` of a run.
pub open spec fn chosen_at(
    orders: Seq<Seq<TaskId>>,
    offers: Seq<Seq<TaskId>>,
    picks: Seq<int>,
    i: int,
) -> TaskId {
    extend_unique(orders[i], offers[i])[picks[i]]
}

proof fn lemma_rotation_run_step(
    orders: Seq<Seq<TaskId>>,
    offers: Seq<Seq<TaskId>>,
    picks: Seq<int>,
    i: int,
)
    requires
        rotation_run(orders, offers, picks),
        0 <= i < offers.len(),
        orders[i].no_duplicates(),
    ensures
        orders[i + 1].no_duplicates(),
        orders[i + 1].len() >= orders[i].len(),
        extend_unique(orders[i], offers[i]).subrange(0, orders[i].len() as int) == orders[i],
{
    let ext = extend_unique(orders[i], offers[i]);
    lemma_extend_unique(orders[i], offers[i]);
    let j = picks[i];
    let q = rotate(ext, j);
    let n = ext.len() - 1;
    assert forall|a: int, b: int| 0 <= a < b < q.len() implies q[a] != q[b] by {
        let ia = if a < j { a } else if a < n { a + 1 } else { j };
        let ib = if b < j { b } else if b < n { b + 1 } else { j };
        assert(q[a] == ext[ia]);
        assert(q[b] == ext[ib]);
    }
}

/// Fairness of the rotation over a whole execution: a task chosen at the
/// first decision of a run, and runnable at every later decision, is chosen
/// again within the next `n` decisions, where `n` is the number of distinct
/// tasks the rotation holds by the end of the run (every task offered so
/// far, when the run starts from the empty rotation of a new execution).
/// So at most `n - 1` other decisions come in between.
pub proof fn lemma_rotation_run_fair(
    orders: Seq<Seq<TaskId>>,
    offers: Seq<Seq<TaskId>>,
    picks: Seq<int>,
    t: TaskId,
)
    requires
        rotation_run(orders, offers, picks),
        offers.len() > orders[offers.len() as int].len(),
        chosen_at(orders, offers, picks, 0) == t,
        forall|i: int| 1 <= i < offers.len() ==> #[trigger] offers[i].contains(t),
    ensures
        exists|i: int|
            1 <= i <= orders[offers.len() as int].len() && chosen_at(orders, offers, picks, i) == t,
{
    let m = offers.len() as int;
    // lengths grow and uniqueness holds along the run
    assert forall|k: int| 0 <= k <= m implies (#[trigger] orders[k]).no_duplicates() && orders[k].len() <= orders[m].len() by {
        lemma_run_grows(orders, offers, picks, k, m);
    }
    let p1 = orders[1].len() - 1;
    lemma_rotation_run_step(orders, offers, picks, 0);
    assert(orders[1][p1] == t);
    if forall|i: int| 1 <= i <= p1 + 1 ==> chosen_at(orders, offers, picks, i) != t {
        lemma_position_falls(orders, offers, picks, t, p1 + 1);
        let k = p1 + 1;
        let ext = extend_unique(orders[k], offers[k]);
        lemma_rotation_run_step(orders, offers, picks, k);
        assert(ext[0] == orders[k][0]);
        assert(offers[k].contains(ext[0]));
        assert(picks[k] == 0);
        assert(chosen_at(orders, offers, picks, k) == t);
    }
}

proof fn lemma_run_grows(orders: Seq<Seq<TaskId>>, offers: Seq<Seq<TaskId>>, picks: Seq<int>, k: int, m: int)
    requires
        rotation_run(orders, offers, picks),
        0 <= k <= m <= offers.len(),
    ensures
        orders[k].no_duplicates(),
        orders[m].no_duplicates(),
        orders[k].len() <= orders[m].len(),
    decreases m,
{
    if m > 0 {
        if k < m {
            lemma_run_grows(orders, offers, picks, k, m - 1);
        } else {
            lemma_run_grows(orders, offers, picks, 0, m - 1);
        }
        lemma_run_grows(orders, offers, picks, m - 1, m - 1);
        lemma_rotation_run_step(orders, offers, picks, m - 1);
    }
}

/// While a runnable task is not chosen, it moves one place forward per
/// decision.
proof fn lemma_position_falls(
    orders: Seq<Seq<TaskId>>,
    offers: Seq<Seq<TaskId>>,
    picks: Seq<int>,
    t: TaskId,
    k: int,
)
    requires
        rotation_run(orders, offers, picks),
        1 <= k < offers.len(),
        orders[1].len() >= 1,
        orders[1][orders[1].len() - 1] == t,
        k <= orders[1].len(),
        forall|i: int| 1 <= i < offers.len() ==> #[trigger] offers[i].contains(t),
        forall|i: int| 1 <= i < k ==> chosen_at(orders, offers, picks, i) != t,
        forall|i: int| 0 <= i <= offers.len() ==> (#[trigger] orders[i]).no_duplicates(),
    ensures
        orders[k].len() > orders[1].len() - k,
        orders[k][orders[1].len() - k] == t,
    decreases k,
{
    if k > 1 {
        lemma_position_falls(orders, offers, picks, t, k - 1);
        let i = k - 1;
        let p = orders[1].len() - i;
        let ext = extend_unique(orders[i], offers[i]);
        lemma_rotation_run_step(orders, offers, picks, i);
        assert(ext[p] == orders[i].subrange(0, orders[i].len() as int)[p]);
        assert(ext[p] == t);
        assert(offers[i].contains(t));
        assert(chosen_at(orders, offers, picks, i) != t);
        assert(picks[i] != p);
        lemma_rotation_fair(ext, offers[i], picks[i], p);
    }
}

/// Round robin over the tasks in the order they were first seen.
pub struct RoundRobinScheduler {
    order: Vec<TaskId>,
    data: DataSource,
    seed: u64,
    iterations: usize,
    max_iterations: usize,
}

impl RoundRobinScheduler {
    /// Rotation order: least recently scheduled first.
    pub closed spec fn rotation(&self) -> Seq<TaskId> {
        self.order@
    }

    pub closed spec fn iterations(&self) -> nat {
        self.iterations as nat
    }

    pub closed spec fn max_iterations(&self) -> nat {
        self.max_iterations as nat
    }

    /// A scheduler that runs `max_iterations` executions, each with random
    /// values from `seed`.
    pub fn new(max_iterations: usize, seed: u64) -> (r: RoundRobinScheduler)
        ensures
            r.well_formed(),
            r.rotation() == Seq::<TaskId>::empty(),
            r.iterations() == 0,
            r.max_iterations() == max_iterations,
            r.data_seed() == seed,
            r.draws() == 0,
    {
        RoundRobinScheduler {
            order: Vec::new(),
            data: DataSource::new(seed),
            seed,
            iterations: 0,
            max_iterations,
        }
    }
}

impl Scheduler for RoundRobinScheduler {
    closed spec fn well_formed(&self) -> bool {
        &&& self.data.wf()
        &&& self.data.seed == self.seed
        &&& self.order@.no_duplicates()
    }

    closed spec fn data_seed(&self) -> u64 {
        self.data.seed
    }

    closed spec fn draws(&self) -> nat {
        self.data.drawn@
    }

    fn new_execution(&mut self) -> (r: Option<Schedule>)
        ensures
            final(self).max_iterations() == old(self).max_iterations(),
            final(self).data_seed() == old(self).data_seed(),
            old(self).iterations() >= old(self).max_iterations() ==> r is None
                && final(self).iterations() == old(self).iterations(),
            old(self).iterations() < old(self).max_iterations() ==> {
                &&& r matches Some(s) && s@.seed == old(self).data_seed() && s@.steps.len() == 0
                &&& final(self).iterations() == old(self).iterations() + 1
                &&& final(self).rotation() == Seq::<TaskId>::empty()
            },
    {
        if self.iterations >= self.max_iterations {
            return None;
        }
        self.iterations = self.iterations + 1;
        self.order = Vec::new();
        self.data = DataSource::new(self.seed);
        Some(Schedule::new(self.seed))
    }

    fn next_task(
        &mut self,
        runnable_tasks: &[TaskId],
        current_task: Option<TaskId>,
        is_yielding: bool,
    ) -> (r: Option<TaskId>)
        ensures
            final(self).iterations() == old(self).iterations(),
            final(self).max_iterations() == old(self).max_iterations(),
            ({
                let ext = extend_unique(old(self).rotation(), runnable_tasks@);
                exists|j: int|
                    first_runnable(ext, runnable_tasks@, j) && r == Some(ext[j])
                        && final(self).rotation() == rotate(ext, j)
            }),
            r matches Some(t) && rotation_step(old(self).rotation(), runnable_tasks@, final(self).rotation(), t),
    {
        extend_unique_into(&mut self.order, runnable_tasks);
        let ghost ext = self.order@;
        proof {
            lemma_extend_unique(old(self).order@, runnable_tasks@);
            assert(runnable_tasks@.contains(runnable_tasks@[0]));
        }
        let mut j: usize = 0;
        while j < self.order.len()
            invariant
                self.order@ == ext,
                ext.no_duplicates(),
                0 <= j <= ext.len(),
                forall|k: int| 0 <= k < j ==> !runnable_tasks@.contains(#[trigger] ext[k]),
                forall|x: TaskId| runnable_tasks@.contains(x) ==> #[trigger] ext.contains(x),
                runnable_tasks@.len() > 0,
            ensures
                j < ext.len() ==> runnable_tasks@.contains(ext[j as int]),
                0 <= j <= ext.len(),
                forall|k: int| 0 <= k < j ==> !runnable_tasks@.contains(#[trigger] ext[k]),
            decreases ext.len() - j,
        {
            if contains_task(runnable_tasks, self.order[j]) {
                break;
            }
            j = j + 1;
        }
        if j == self.order.len() {
            proof {
                let x = runnable_tasks@[0];
                assert(runnable_tasks@.contains(x));
                assert(ext.contains(x));
                let k = choose|k: int| 0 <= k < ext.len() && ext[k] == x;
                assert(!runnable_tasks@.contains(ext[k]));
            }
            return None;
        }
        let t = self.order.remove(j);
        self.order.push(t);
        proof {
            assert(first_runnable(ext, runnable_tasks@, j as int));
            assert(self.order@ =~= rotate(ext, j as int));
            assert forall|a: int, b: int|
                0 <= a < b < self.order@.len() implies self.order@[a] != self.order@[b] by {
                let n = ext.len() - 1;
                let ia = if a < j { a } else if a < n { a + 1 } else { j as int };
                let ib = if b < j { b } else if b < n { b + 1 } else { j as int };
                assert(self.order@[a] == ext[ia]);
                assert(self.order@[b] == ext[ib]);
            }
            assert(t == ext[j as int]);
            assert(ext == extend_unique(old(self).rotation(), runnable_tasks@));
            assert(first_runnable(ext, runnable_tasks@, j as int) && Some(t) == Some(ext[j as int])
                && self.rotation() == rotate(ext, j as int));
            assert(first_runnable(ext, runnable_tasks@, j as int) && self.rotation() == rotate(ext, j as int)
                && t == ext[j as int]);
        }
        Some(t)
    }

    fn next_u64(&mut self) -> (r: u64) {
        self.data.next_u64()
    }
}

} // verus!
