//! Probabilistic concurrency testing: random distinct priorities, lowered at
//! random change points.
use vstd::prelude::*;
use crate::rng::{DataSource, Rng, random_value, xorshift};
use crate::round_robin::first_runnable;
use crate::schedule::Schedule;
use crate::scheduler::Scheduler;
use crate::task::{TaskId, contains_task};

verus! {

/// Gives each task of `s` not yet ranked a place in `rank` drawn from the
/// generator: the ranking and generator state afterwards.
pub open spec fn pct_admit(rank: Seq<TaskId>, state: u64, s: Seq<TaskId>) -> (Seq<TaskId>, u64)
    decreases s.len(),
{
    if s.len() == 0 {
        (rank, state)
    } else {
        let p = pct_admit(rank, state, s.drop_last());
        if p.0.contains(s.last()) {
            p
        } else {
            let st = xorshift(p.1);
            (p.0.insert(st as int % (p.0.len() + 1) as int, s.last()), st)
        }
    }
}

/// `rank` with task `c` moved to the lowest priority.
pub open spec fn demote(rank: Seq<TaskId>, c: TaskId) -> Seq<TaskId> {
    if rank.contains(c) {
        let j = choose|j: int| 0 <= j < rank.len() && rank[j] == c;
        rank.remove(j).push(c)
    } else {
        rank
    }
}

/// `k` change points below `n`, drawn in turn: the points and the generator
/// state afterwards.
pub open spec fn draw_points(state: u64, n: nat, k: nat) -> (Seq<usize>, u64)
    decreases k,
{
    if k == 0 {
        (Seq::empty(), state)
    } else {
        let p = draw_points(state, n, (k - 1) as nat);
        let st = xorshift(p.1);
        (p.0.push((st as int % n as int) as usize), st)
    }
}

/// The ranking after admitting the tasks of `runnable`, with the current task
/// demoted when `lower` holds.
pub open spec fn pct_rerank(
    rank: Seq<TaskId>,
    state: u64,
    runnable: Seq<TaskId>,
    current: Option<TaskId>,
    lower: bool,
) -> Seq<TaskId> {
    let adm = pct_admit(rank, state, runnable).0;
    match current {
        Some(c) => if lower {
            demote(adm, c)
        } else {
            adm
        },
        None => adm,
    }
}

pub open spec fn sat_inc(x: usize) -> usize {
    if x < usize::MAX {
        (x + 1) as usize
    } else {
        x
    }
}

/// What one decision or draw of an execution depends on and changes.
pub ghost struct PctState {
    pub ranking: Seq<TaskId>,
    pub rng: u64,
    pub steps: usize,
    pub points: Seq<usize>,
    pub seed: u64,
    pub draws: nat,
}

/// A call of the engine within an execution.
pub ghost enum PctCall {
    Task(Seq<TaskId>, Option<TaskId>, bool),
    Value,
}

/// The scheduler's answer to a call.
pub ghost enum PctAnswer {
    Task(Option<TaskId>),
    Value(u64),
}

/// One call of an execution takes state `s` to `s2` with answer `a`.
pub open spec fn pct_step(s: PctState, call: PctCall, s2: PctState, a: PctAnswer) -> bool {
    match call {
        PctCall::Task(rs, cur, y) => {
            &&& s2.ranking == pct_rerank(s.ranking, s.rng, rs, cur, y || s.points.contains(s.steps))
            &&& s2.rng == pct_admit(s.ranking, s.rng, rs).1
            &&& s2.steps == sat_inc(s.steps)
            &&& s2.points == s.points
            &&& s2.seed == s.seed
            &&& s2.draws == s.draws
            &&& exists|j: int| first_runnable(s2.ranking, rs, j) && a == PctAnswer::Task(Some(s2.ranking[j]))
        },
        PctCall::Value => {
            &&& s2 == PctState { draws: s.draws + 1, ..s }
            &&& a == PctAnswer::Value(random_value(s.seed, s.draws))
        },
    }
}

proof fn lemma_task_step(
    s: PctState,
    s2: PctState,
    rs: Seq<TaskId>,
    cur: Option<TaskId>,
    y: bool,
    j: int,
    t: TaskId,
)
    requires
        s2.ranking == pct_rerank(s.ranking, s.rng, rs, cur, y || s.points.contains(s.steps)),
        s2.rng == pct_admit(s.ranking, s.rng, rs).1,
        s2.steps == sat_inc(s.steps),
        s2.points == s.points,
        s2.seed == s.seed,
        s2.draws == s.draws,
        first_runnable(s2.ranking, rs, j),
        t == s2.ranking[j],
    ensures
        pct_step(s, PctCall::Task(rs, cur, y), s2, PctAnswer::Task(Some(t))),
{
    assert(first_runnable(s2.ranking, rs, j) && PctAnswer::Task(Some(t)) == PctAnswer::Task(Some(s2.ranking[j])));
}

/// Reproducibility over a whole execution: two runs that start from the same
/// state and receive the same calls give the same answers at every call
/// (and pass through the same states). Two schedulers made with the same
/// seed, bug depth and budget reach the same state after the same
/// `new_execution` calls, by the contract of `new_execution`.
pub proof fn lemma_pct_reproducible(
    calls: Seq<PctCall>,
    s1: Seq<PctState>,
    a1: Seq<PctAnswer>,
    s2: Seq<PctState>,
    a2: Seq<PctAnswer>,
)
    requires
        s1.len() == calls.len() + 1 && a1.len() == calls.len(),
        s2.len() == calls.len() + 1 && a2.len() == calls.len(),
        s1[0] == s2[0],
        forall|i: int| 0 <= i < calls.len() ==> #[trigger] pct_step(s1[i], calls[i], s1[i + 1], a1[i]),
        forall|i: int| 0 <= i < calls.len() ==> #[trigger] pct_step(s2[i], calls[i], s2[i + 1], a2[i]),
    ensures
        a1 == a2,
        s1 == s2,
{
    assert forall|k: int| 0 <= k <= calls.len() implies s1[k] == s2[k] && (k < calls.len() ==> a1[k] == a2[k]) by {
        lemma_pct_runs_agree(calls, s1, a1, s2, a2, k);
    }
    assert(a1 =~= a2);
    assert(s1 =~= s2);
}

proof fn lemma_pct_runs_agree(
    calls: Seq<PctCall>,
    s1: Seq<PctState>,
    a1: Seq<PctAnswer>,
    s2: Seq<PctState>,
    a2: Seq<PctAnswer>,
    k: int,
)
    requires
        s1.len() == calls.len() + 1 && a1.len() == calls.len(),
        s2.len() == calls.len() + 1 && a2.len() == calls.len(),
        s1[0] == s2[0],
        forall|i: int| 0 <= i < calls.len() ==> #[trigger] pct_step(s1[i], calls[i], s1[i + 1], a1[i]),
        forall|i: int| 0 <= i < calls.len() ==> #[trigger] pct_step(s2[i], calls[i], s2[i + 1], a2[i]),
        0 <= k <= calls.len(),
    ensures
        s1[k] == s2[k],
        k < calls.len() ==> a1[k] == a2[k],
    decreases k,
{
    if k > 0 {
        lemma_pct_runs_agree(calls, s1, a1, s2, a2, k - 1);
        let i = k - 1;
        assert(pct_step(s1[i], calls[i], s1[i + 1], a1[i]));
        assert(pct_step(s2[i], calls[i], s2[i + 1], a2[i]));
        assert(s1[k] == s2[k]);
    }
    if k < calls.len() {
        assert(pct_step(s1[k], calls[k], s1[k + 1], a1[k]));
        assert(pct_step(s2[k], calls[k], s2[k + 1], a2[k]));
        match calls[k] {
            PctCall::Task(rs, cur, y) => {
                let j1 = choose|j: int| #[trigger] first_runnable(s1[k + 1].ranking, rs, j) && a1[k] == PctAnswer::Task(Some(s1[k + 1].ranking[j]));
                let j2 = choose|j: int| #[trigger] first_runnable(s2[k + 1].ranking, rs, j) && a2[k] == PctAnswer::Task(Some(s2[k + 1].ranking[j]));
                assert(s1[k + 1].ranking == s2[k + 1].ranking);
                lemma_pct_choice_unique(s1[k + 1].ranking, rs, j1, j2);
            },
            PctCall::Value => {},
        }
    }
}

/// Priority-based search for bugs of a given depth, over a bounded number of
/// executions.
pub struct PctScheduler {
    rng: Rng,
    max_depth: usize,
    max_iterations: usize,
    iterations: usize,
    ranking: Vec<TaskId>,
    change_points: Vec<usize>,
    steps: usize,
    max_steps: usize,
    data: DataSource,
}

impl PctScheduler {
    /// Tasks from highest priority to lowest.
    pub closed spec fn ranking(&self) -> Seq<TaskId> {
        self.ranking@
    }

    /// Steps at which the running task loses its priority.
    pub closed spec fn change_points(&self) -> Seq<usize> {
        self.change_points@
    }

    /// Scheduling decisions taken in the current execution.
    pub closed spec fn steps(&self) -> usize {
        self.steps
    }

    /// Longest execution seen so far, in decisions (at least one).
    pub closed spec fn max_steps(&self) -> usize {
        self.max_steps
    }

    pub closed spec fn rng_state(&self) -> u64 {
        self.rng.state
    }

    /// The state that decisions and draws of an execution read and change.
    pub closed spec fn state(&self) -> PctState {
        PctState {
            ranking: self.ranking@,
            rng: self.rng.state,
            steps: self.steps,
            points: self.change_points@,
            seed: self.data.seed,
            draws: self.data.drawn@,
        }
    }

    pub closed spec fn iterations(&self) -> nat {
        self.iterations as nat
    }

    pub closed spec fn max_iterations(&self) -> nat {
        self.max_iterations as nat
    }

    /// Depth of the bugs searched for.
    pub closed spec fn bug_depth(&self) -> nat {
        self.max_depth as nat
    }

    /// A search for bugs of depth `max_depth` over `max_iterations`
    /// executions, with choices drawn from `seed`.
    pub fn new(max_depth: usize, max_iterations: usize, seed: u64) -> (r: PctScheduler)
        ensures
            r.well_formed(),
            r.rng_state() == crate::rng::seed_state(seed),
            r.bug_depth() == max_depth,
            r.max_iterations() == max_iterations,
            r.iterations() == 0,
            r.ranking() == Seq::<TaskId>::empty(),
            r.steps() == 0,
            r.max_steps() == 1,
            r.data_seed() == seed,
            r.draws() == 0,
    {
        PctScheduler {
            rng: Rng::seeded(seed),
            max_depth,
            max_iterations,
            iterations: 0,
            ranking: Vec::new(),
            change_points: Vec::new(),
            steps: 0,
            max_steps: 1,
            data: DataSource::new(seed),
        }
    }
}

/// What admitting tasks keeps: every ranked and every admitted task is
/// ranked afterwards, each once.
proof fn lemma_pct_admit(rank: Seq<TaskId>, state: u64, s: Seq<TaskId>)
    requires
        rank.no_duplicates(),
    ensures
        pct_admit(rank, state, s).0.no_duplicates(),
        forall|x: TaskId| rank.contains(x) ==> #[trigger] pct_admit(rank, state, s).0.contains(x),
        forall|i: int| 0 <= i < s.len() ==> pct_admit(rank, state, s).0.contains(#[trigger] s[i]),
    decreases s.len(),
{
    if s.len() > 0 {
        let d = s.drop_last();
        let p = pct_admit(rank, state, d);
        lemma_pct_admit(rank, state, d);
        assert forall|i: int| 0 <= i < d.len() implies p.0.contains(#[trigger] s[i]) by {
            assert(d[i] == s[i]);
        }
        if !p.0.contains(s.last()) {
            let st = xorshift(p.1);
            let pos = st as int % (p.0.len() + 1) as int;
            let q = p.0.insert(pos, s.last());
            assert forall|x: TaskId| p.0.contains(x) implies q.contains(x) by {
                let j = choose|j: int| 0 <= j < p.0.len() && p.0[j] == x;
                if j < pos {
                    assert(q[j] == x);
                } else {
                    assert(q[j + 1] == x);
                }
            }
            assert(q[pos] == s.last());
            assert forall|a: int, b: int| 0 <= a < b < q.len() implies q[a] != q[b] by {
                if a != pos && b != pos {
                    let ia = if a < pos { a } else { a - 1 };
                    let ib = if b < pos { b } else { b - 1 };
                    assert(q[a] == p.0[ia] && q[b] == p.0[ib]);
                } else if a == pos {
                    let ib = if b < pos { b } else { b - 1 };
                    assert(q[b] == p.0[ib]);
                } else {
                    let ia = if a < pos { a } else { a - 1 };
                    assert(q[a] == p.0[ia]);
                }
            }
            assert forall|i: int| 0 <= i < s.len() implies q.contains(#[trigger] s[i]) by {
                if i < d.len() {
                    assert(p.0.contains(s[i]));
                }
            }
        } else {
            assert forall|i: int| 0 <= i < s.len() implies p.0.contains(#[trigger] s[i]) by {
                if i < d.len() {
                    assert(d[i] == s[i]);
                }
            }
        }
    }
}

/// Demoting keeps the ranked tasks, each once.
proof fn lemma_demote(rank: Seq<TaskId>, c: TaskId)
    requires
        rank.no_duplicates(),
    ensures
        demote(rank, c).no_duplicates(),
        forall|x: TaskId| rank.contains(x) ==> #[trigger] demote(rank, c).contains(x),
{
    if rank.contains(c) {
        let j = choose|j: int| 0 <= j < rank.len() && rank[j] == c;
        let q = rank.remove(j).push(c);
        let n = rank.len() - 1;
        assert forall|x: TaskId| rank.contains(x) implies q.contains(x) by {
            let i = choose|i: int| 0 <= i < rank.len() && rank[i] == x;
            if i < j {
                assert(q[i] == x);
            } else if i > j {
                assert(q[i - 1] == x);
            } else {
                assert(q[n] == x);
            }
        }
        assert forall|a: int, b: int| 0 <= a < b < q.len() implies q[a] != q[b] by {
            let ia = if a < j { a } else if a < n { a + 1 } else { j };
            let ib = if b < j { b } else if b < n { b + 1 } else { j };
            assert(q[a] == rank[ia]);
            assert(q[b] == rank[ib]);
        }
    }
}

/// Reproducibility: the first runnable position of a ranking is unique. The
/// contracts of `PctScheduler` give every other part of the next state, and
/// the seed of each execution, as functions of the state before and the
/// arguments, so two schedulers created with the same seed and bug depth and
/// offered the same runnable sets give the same tasks and the same values.
pub proof fn lemma_pct_choice_unique(rank: Seq<TaskId>, runnable: Seq<TaskId>, j1: int, j2: int)
    requires
        first_runnable(rank, runnable, j1),
        first_runnable(rank, runnable, j2),
    ensures
        j1 == j2,
{
    if j1 < j2 {
        assert(!runnable.contains(rank[j1]));
    } else if j2 < j1 {
        assert(!runnable.contains(rank[j2]));
    }
}

/// Whether `v` holds `x`.
fn contains_usize(v: &Vec<usize>, x: usize) -> (r: bool)
    ensures
        r == v@.contains(x),
{
    let mut i: usize = 0;
    while i < v.len()
        invariant
            0 <= i <= v@.len(),
            forall|j: int| 0 <= j < i ==> v@[j] != x,
        decreases v@.len() - i,
    {
        if v[i] == x {
            return true;
        }
        i = i + 1;
    }
    false
}

impl Scheduler for PctScheduler {
    closed spec fn well_formed(&self) -> bool {
        &&& self.data.wf()
        &&& self.ranking@.no_duplicates()
        &&& self.max_steps >= 1
    }

    closed spec fn data_seed(&self) -> u64 {
        self.data.seed
    }

    closed spec fn draws(&self) -> nat {
        self.data.drawn@
    }

    fn new_execution(&mut self) -> (r: Option<Schedule>)
        ensures
            final(self).bug_depth() == old(self).bug_depth(),
            final(self).max_iterations() == old(self).max_iterations(),
            old(self).iterations() >= old(self).max_iterations() ==> r is None
                && final(self).rng_state() == old(self).rng_state()
                && final(self).iterations() == old(self).iterations(),
            old(self).iterations() < old(self).max_iterations() ==> {
                let ms = if old(self).steps() > old(self).max_steps() {
                    old(self).steps()
                } else {
                    old(self).max_steps()
                };
                let k = if old(self).bug_depth() > 0 {
                    (old(self).bug_depth() - 1) as nat
                } else {
                    0nat
                };
                let dp = draw_points(old(self).rng_state(), ms as nat, k);
                &&& final(self).max_steps() == ms
                &&& final(self).change_points() == dp.0
                &&& final(self).rng_state() == xorshift(dp.1)
                &&& r matches Some(s) && s@.seed == final(self).rng_state() && s@.steps.len() == 0
                &&& final(self).ranking() == Seq::<TaskId>::empty()
                &&& final(self).steps() == 0
                &&& final(self).iterations() == old(self).iterations() + 1
            },
    {
        if self.iterations >= self.max_iterations {
            return None;
        }
        self.iterations = self.iterations + 1;
        if self.steps > self.max_steps {
            self.max_steps = self.steps;
        }
        self.ranking = Vec::new();
        self.steps = 0;
        self.change_points = Vec::new();
        let k: usize = if self.max_depth > 0 {
            self.max_depth - 1
        } else {
            0
        };
        let ghost start = self.rng.state;
        let ghost ms = self.max_steps;
        let mut i: usize = 0;
        while i < k
            invariant
                0 <= i <= k,
                self.max_steps >= 1,
                (self.change_points@, self.rng.state) == draw_points(start, self.max_steps as nat, i as nat),
                self.max_steps == ms,
                self.ranking@ == Seq::<TaskId>::empty(),
                self.data == old(self).data,
                self.max_depth == old(self).max_depth,
                self.max_iterations == old(self).max_iterations,
                self.iterations == old(self).iterations + 1,
                self.steps == 0,
            decreases k - i,
        {
            let point = self.rng.below(self.max_steps);
            self.change_points.push(point);
            i = i + 1;
        }
        let seed = self.rng.next_u64();
        self.data = DataSource::new(seed);
        Some(Schedule::new(seed))
    }

    fn next_task(
        &mut self,
        runnable_tasks: &[TaskId],
        current_task: Option<TaskId>,
        is_yielding: bool,
    ) -> (r: Option<TaskId>)
        ensures
            final(self).bug_depth() == old(self).bug_depth(),
            final(self).max_iterations() == old(self).max_iterations(),
            final(self).iterations() == old(self).iterations(),
            final(self).change_points() == old(self).change_points(),
            final(self).max_steps() == old(self).max_steps(),
            final(self).steps() == sat_inc(old(self).steps()),
            final(self).rng_state() == pct_admit(old(self).ranking(), old(self).rng_state(), runnable_tasks@).1,
            final(self).ranking() == pct_rerank(old(self).ranking(), old(self).rng_state(), runnable_tasks@,
                current_task, is_yielding || old(self).change_points().contains(old(self).steps())),
            exists|j: int| first_runnable(final(self).ranking(), runnable_tasks@, j) && r == Some(final(self).ranking()[j]),
            pct_step(
                old(self).state(),
                PctCall::Task(runnable_tasks@, current_task, is_yielding),
                final(self).state(),
                PctAnswer::Task(r),
            ),
    {
        let ghost rank0 = self.ranking@;
        let ghost state0 = self.rng.state;
        let mut i: usize = 0;
        while i < runnable_tasks.len()
            invariant
                0 <= i <= runnable_tasks@.len(),
                (self.ranking@, self.rng.state) == pct_admit(rank0, state0, runnable_tasks@.subrange(0, i as int)),
                self.ranking@.no_duplicates(),
                rank0.no_duplicates(),
                self.data == old(self).data,
                self.max_steps == old(self).max_steps,
                self.steps == old(self).steps,
                self.change_points == old(self).change_points,
                self.iterations == old(self).iterations,
                self.max_iterations == old(self).max_iterations,
                self.max_depth == old(self).max_depth,
            decreases runnable_tasks@.len() - i,
        {
            let t = runnable_tasks[i];
            proof {
                assert(runnable_tasks@.subrange(0, i as int + 1).drop_last() =~= runnable_tasks@.subrange(0, i as int));
                lemma_pct_admit(rank0, state0, runnable_tasks@.subrange(0, i as int + 1));
            }
            if !contains_task(self.ranking.as_slice(), t) {
                let v = self.rng.next_u64();
                let pos = ((v as u128) % ((self.ranking.len() as u128) + 1)) as usize;
                self.ranking.insert(pos, t);
            }
            i = i + 1;
        }
        proof {
            assert(runnable_tasks@.subrange(0, runnable_tasks@.len() as int) =~= runnable_tasks@);
            lemma_pct_admit(rank0, state0, runnable_tasks@);
        }
        let ghost adm = self.ranking@;
        let at_change_point = contains_usize(&self.change_points, self.steps);
        if is_yielding || at_change_point {
            if let Some(c) = current_task {
                proof {
                    lemma_demote(adm, c);
                }
                let mut j: usize = 0;
                while j < self.ranking.len()
                    invariant
                        self.ranking@ == adm,
                        0 <= j <= adm.len(),
                        forall|k: int| 0 <= k < j ==> adm[k] != c,
                    ensures
                        j < adm.len() ==> adm[j as int] == c,
                        forall|k: int| 0 <= k < j ==> adm[k] != c,
                        0 <= j <= adm.len(),
                    decreases adm.len() - j,
                {
                    if self.ranking[j] == c {
                        break;
                    }
                    j = j + 1;
                }
                if j < self.ranking.len() {
                    let t = self.ranking.remove(j);
                    self.ranking.push(t);
                    proof {
                        assert(adm.contains(c));
                        let jj = choose|jj: int| 0 <= jj < adm.len() && adm[jj] == c;
                        assert(adm.no_duplicates());
                        assert(jj == j);
                        assert(self.ranking@ =~= demote(adm, c));
                    }
                } else {
                    proof {
                        assert(!adm.contains(c));
                    }
                }
            }
        }
        if self.steps < usize::MAX {
            self.steps = self.steps + 1;
        }
        let ghost dem = self.ranking@;
        proof {
            assert(runnable_tasks@.contains(runnable_tasks@[0]));
            assert(dem.contains(runnable_tasks@[0]));
        }
        let mut j: usize = 0;
        while j < self.ranking.len()
            invariant
                self.ranking@ == dem,
                0 <= j <= dem.len(),
                forall|k: int| 0 <= k < j ==> !runnable_tasks@.contains(#[trigger] dem[k]),
            ensures
                j < dem.len() ==> runnable_tasks@.contains(dem[j as int]),
                0 <= j <= dem.len(),
                forall|k: int| 0 <= k < j ==> !runnable_tasks@.contains(#[trigger] dem[k]),
            decreases dem.len() - j,
        {
            if contains_task(runnable_tasks, self.ranking[j]) {
                break;
            }
            j = j + 1;
        }
        if j == self.ranking.len() {
            proof {
                let k = choose|k: int| 0 <= k < dem.len() && dem[k] == runnable_tasks@[0];
                assert(!runnable_tasks@.contains(dem[k]));
            }
            return None;
        }
        let t = self.ranking[j];
        proof {
            assert(first_runnable(dem, runnable_tasks@, j as int));
            assert(self.ranking@ == dem);
            assert(t == dem[j as int]);
            assert(first_runnable(dem, runnable_tasks@, j as int) && Some(t) == Some(dem[j as int]));
            assert(first_runnable(self.ranking(), runnable_tasks@, j as int) && Some(t) == Some(self.ranking()[j as int]));
            lemma_task_step(
                old(self).state(),
                self.state(),
                runnable_tasks@,
                current_task,
                is_yielding,
                j as int,
                t,
            );
        }
        Some(t)
    }

    fn next_u64(&mut self) -> (r: u64)
        ensures
            final(self).bug_depth() == old(self).bug_depth(),
            final(self).max_iterations() == old(self).max_iterations(),
            final(self).iterations() == old(self).iterations(),
            final(self).max_steps() == old(self).max_steps(),
            pct_step(old(self).state(), PctCall::Value, final(self).state(), PctAnswer::Value(r)),
    {
        let r = self.data.next_u64();
        proof {
            assert(self.state() == PctState { draws: old(self).state().draws + 1, ..old(self).state() });
        }
        r
    }
}

} // verus!
