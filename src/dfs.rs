//! Exhaustive depth-first enumeration of the schedule tree.
use vstd::prelude::*;
use crate::rng::DataSource;
use crate::schedule::{Schedule, ScheduleRecord, ScheduleStep};
use crate::scheduler::Scheduler;
use crate::task::{TaskId, contains_task, ids_increasing};

verus! {

/// One decision point of the explored path: its distinct alternatives and
/// the position of the one taken.
pub type Choice = (Seq<TaskId>, int);

/// A decision point that still has an untried alternative after the one taken.
pub open spec fn has_untried(c: Choice) -> bool {
    c.1 + 1 < c.0.len()
}

/// The path of the next execution after `p`: the deepest decision point with
/// an untried alternative switches to it, and everything below is dropped.
/// Empty when no decision point has one left.
pub open spec fn next_path(p: Seq<Choice>) -> Seq<Choice>
    decreases p.len(),
{
    if p.len() == 0 {
        p
    } else if has_untried(p.last()) {
        p.drop_last().push((p.last().0, p.last().1 + 1))
    } else {
        next_path(p.drop_last())
    }
}

/// `a` comes strictly before `b` in the order of exploration: they agree up
/// to some decision point where `b` takes a later alternative.
pub open spec fn explored_before(a: Seq<Choice>, b: Seq<Choice>) -> bool {
    exists|k: int|
        0 <= k < a.len() && k < b.len() && a.subrange(0, k) == b.subrange(0, k)
            && #[trigger] a[k].0 == b[k].0 && a[k].1 < b[k].1
}

/// Each execution's path comes strictly after the one before in the order of
/// exploration, so no two executions take the same sequence of choices; and
/// the search ends exactly when no decision point has an untried
/// alternative.
pub proof fn lemma_next_path_advances(p: Seq<Choice>)
    ensures
        next_path(p).len() > 0 ==> explored_before(p, next_path(p)),
        next_path(p).len() == 0 <==> forall|k: int| 0 <= k < p.len() ==> !has_untried(#[trigger] p[k]),
    decreases p.len(),
{
    if p.len() > 0 {
        let q = next_path(p);
        let k = p.len() - 1;
        if has_untried(p.last()) {
            assert(p.subrange(0, k) =~= q.subrange(0, k));
            assert(p[k].0 == q[k].0 && p[k].1 < q[k].1);
        } else {
            let d = p.drop_last();
            lemma_next_path_advances(d);
            if q.len() > 0 {
                let j = choose|j: int|
                    0 <= j < d.len() && j < q.len() && d.subrange(0, j) == q.subrange(0, j)
                        && #[trigger] d[j].0 == q[j].0 && d[j].1 < q[j].1;
                assert(p.subrange(0, j) =~= d.subrange(0, j));
                assert(p[j] == d[j]);
            }
            assert forall|i: int| 0 <= i < d.len() implies d[i] == #[trigger] p[i] by {}
            if q.len() == 0 {
                assert forall|i: int| 0 <= i < p.len() implies !has_untried(#[trigger] p[i]) by {
                    if i < d.len() {
                        assert(d[i] == p[i]);
                    }
                }
            } else {
                let i = choose|i: int| 0 <= i < d.len() && has_untried(#[trigger] d[i]);
                assert(p[i] == d[i]);
            }
        }
    }
}

/// The order of exploration is a strict order that survives extending the
/// later path: a path explored before another is also explored before every
/// extension of it, and never before itself. With
/// `lemma_next_path_advances` and the fact that an execution only appends
/// decision points to the path it starts from, every execution's path comes
/// strictly after all earlier ones, so none repeats.
pub proof fn lemma_explored_before_order(a: Seq<Choice>, b: Seq<Choice>, c: Seq<Choice>)
    ensures
        !explored_before(a, a),
        explored_before(a, b) && explored_before(b, c) ==> explored_before(a, c),
        explored_before(a, b) && b.len() <= c.len() && c.subrange(0, b.len() as int) == b
            ==> explored_before(a, c),
{
    if explored_before(a, a) {
        let k = choose|k: int|
            0 <= k < a.len() && k < a.len() && a.subrange(0, k) == a.subrange(0, k)
                && #[trigger] a[k].0 == a[k].0 && a[k].1 < a[k].1;
    }
    if explored_before(a, b) && explored_before(b, c) {
        let k1 = choose|k: int|
            0 <= k < a.len() && k < b.len() && a.subrange(0, k) == b.subrange(0, k)
                && #[trigger] a[k].0 == b[k].0 && a[k].1 < b[k].1;
        let k2 = choose|k: int|
            0 <= k < b.len() && k < c.len() && b.subrange(0, k) == c.subrange(0, k)
                && #[trigger] b[k].0 == c[k].0 && b[k].1 < c[k].1;
        let k = if k1 < k2 { k1 } else { k2 };
        assert(a.subrange(0, k) =~= a.subrange(0, k1).subrange(0, k));
        assert(b.subrange(0, k) =~= b.subrange(0, k1).subrange(0, k));
        assert(b.subrange(0, k) =~= b.subrange(0, k2).subrange(0, k));
        assert(c.subrange(0, k) =~= c.subrange(0, k2).subrange(0, k));
        if k1 < k2 {
            assert(b[k1] == b.subrange(0, k2)[k1]);
            assert(c[k1] == c.subrange(0, k2)[k1]);
        } else if k2 < k1 {
            assert(a[k2] == a.subrange(0, k1)[k2]);
            assert(b[k2] == b.subrange(0, k1)[k2]);
        }
        assert(a[k].0 == c[k].0 && a[k].1 < c[k].1);
    }
    if explored_before(a, b) && b.len() <= c.len() && c.subrange(0, b.len() as int) == b {
        let k = choose|k: int|
            0 <= k < a.len() && k < b.len() && a.subrange(0, k) == b.subrange(0, k)
                && #[trigger] a[k].0 == b[k].0 && a[k].1 < b[k].1;
        assert(c.subrange(0, k) =~= c.subrange(0, b.len() as int).subrange(0, k));
        assert(c[k] == c.subrange(0, b.len() as int)[k]);
        assert(a[k].0 == c[k].0 && a[k].1 < c[k].1);
    }
}

/// One search step as the contracts of `DfsScheduler` give it: after an
/// execution that took path `p`, `new_execution` sets the path to
/// `next_path(p)` (or ends the search when it is empty), and the next
/// execution, when the program offers again what it offered before, replays
/// that path and only appends decision points to it. The path `p2` it takes
/// then comes strictly after `p`.
pub proof fn lemma_next_execution_later(p: Seq<Choice>, p2: Seq<Choice>)
    requires
        next_path(p).len() > 0,
        next_path(p).len() <= p2.len(),
        p2.subrange(0, next_path(p).len() as int) == next_path(p),
    ensures
        explored_before(p, p2),
{
    lemma_next_path_advances(p);
    lemma_explored_before_order(p, next_path(p), p2);
}

/// No duplication over a whole search: when every path comes after the one
/// before in the order of exploration (as the executions of one search do,
/// by `lemma_next_path_advances`), each comes after all earlier ones, and no
/// two are equal.
pub proof fn lemma_paths_distinct(paths: Seq<Seq<Choice>>)
    requires
        forall|i: int| 0 <= i < paths.len() - 1 ==> explored_before(#[trigger] paths[i], paths[i + 1]),
    ensures
        forall|i: int, j: int| 0 <= i < j < paths.len() ==> explored_before(paths[i], paths[j]),
        forall|i: int, j: int| 0 <= i < j < paths.len() ==> paths[i] != paths[j],
{
    assert forall|i: int, j: int| 0 <= i < j < paths.len() implies explored_before(paths[i], paths[j]) by {
        lemma_chain(paths, i, j);
    }
    assert forall|i: int, j: int| 0 <= i < j < paths.len() implies paths[i] != paths[j] by {
        lemma_chain(paths, i, j);
        lemma_explored_before_order(paths[i], paths[i], paths[i]);
    }
}

proof fn lemma_chain(paths: Seq<Seq<Choice>>, i: int, j: int)
    requires
        forall|k: int| 0 <= k < paths.len() - 1 ==> explored_before(#[trigger] paths[k], paths[k + 1]),
        0 <= i < j < paths.len(),
    ensures
        explored_before(paths[i], paths[j]),
    decreases j - i,
{
    if j > i + 1 {
        lemma_chain(paths, i, j - 1);
        assert(explored_before(paths[j - 1], paths[j]));
        lemma_explored_before_order(paths[i], paths[j - 1], paths[j]);
    }
}

/// `b` to the power `e`.
pub open spec fn power(b: nat, e: nat) -> nat
    decreases e,
{
    if e == 0 {
        1
    } else {
        b * power(b, (e - 1) as nat)
    }
}

/// No more than `d` decision points, each taking one of its first `b`
/// alternatives.
pub open spec fn within_bounds(p: Seq<Choice>, b: nat, d: nat) -> bool {
    &&& p.len() <= d
    &&& forall|k: int| 0 <= k < p.len() ==> 0 <= (#[trigger] p[k]).1 < b
}

/// The path read as a number of `d` digits in base `b`, taken alternatives
/// as digits and missing decision points as zeros.
pub open spec fn path_rank(p: Seq<Choice>, b: nat, d: nat) -> int
    decreases p.len(),
{
    if p.len() == 0 {
        0
    } else {
        path_rank(p.drop_last(), b, d) + p.last().1 * power(b, (d - p.len()) as nat)
    }
}

proof fn lemma_power_positive(b: nat, e: nat)
    requires
        b >= 1,
    ensures
        power(b, e) >= 1,
    decreases e,
{
    if e > 0 {
        lemma_power_positive(b, (e - 1) as nat);
        assert(b * power(b, (e - 1) as nat) >= power(b, (e - 1) as nat)) by (nonlinear_arith)
            requires
                b >= 1,
                power(b, (e - 1) as nat) >= 1,
        ;
    }
}

/// The digits from `k` up to `m` add at least nothing and less than one unit
/// of digit `k - 1`.
proof fn lemma_rank_tail(p: Seq<Choice>, b: nat, d: nat, k: int, m: int)
    requires
        within_bounds(p, b, d),
        0 <= k <= m <= p.len(),
    ensures
        0 <= path_rank(p.subrange(0, m), b, d) - path_rank(p.subrange(0, k), b, d),
        path_rank(p.subrange(0, m), b, d) - path_rank(p.subrange(0, k), b, d) <= power(
            b,
            (d - k) as nat,
        ) - power(b, (d - m) as nat),
    decreases m - k,
{
    if m > k {
        lemma_rank_tail(p, b, d, k, m - 1);
        let q = p.subrange(0, m);
        assert(q.drop_last() =~= p.subrange(0, m - 1));
        assert(q.last() == p[m - 1]);
        let e = (d - m) as nat;
        let x = p[m - 1].1;
        assert(0 <= x < b);
        assert(power(b, (d - (m - 1)) as nat) == b * power(b, e));
        let pe = power(b, e);
        assert(0 <= x * pe <= (b - 1) * pe) by (nonlinear_arith)
            requires
                0 <= x < b,
                pe >= 0,
        ;
        assert((b - 1) * pe == b * pe - pe) by (nonlinear_arith);
    }
}

/// A path explored before another has a smaller rank.
proof fn lemma_rank_increases(a: Seq<Choice>, c: Seq<Choice>, b: nat, d: nat)
    requires
        within_bounds(a, b, d),
        within_bounds(c, b, d),
        explored_before(a, c),
    ensures
        path_rank(a, b, d) < path_rank(c, b, d),
{
    let k = choose|k: int|
        0 <= k < a.len() && k < c.len() && a.subrange(0, k) == c.subrange(0, k)
            && #[trigger] a[k].0 == c[k].0 && a[k].1 < c[k].1;
    let e = (d - (k + 1)) as nat;
    let pe = power(b, e);
    lemma_rank_tail(a, b, d, k + 1, a.len() as int);
    lemma_rank_tail(c, b, d, k + 1, c.len() as int);
    lemma_power_positive(b, (d - a.len()) as nat);
    assert(a.subrange(0, a.len() as int) =~= a);
    assert(c.subrange(0, c.len() as int) =~= c);
    assert(a.subrange(0, k + 1).drop_last() =~= a.subrange(0, k));
    assert(c.subrange(0, k + 1).drop_last() =~= c.subrange(0, k));
    assert(a.subrange(0, k + 1).last() == a[k]);
    assert(c.subrange(0, k + 1).last() == c[k]);
    let x = a[k].1;
    let y = c[k].1;
    assert(x * pe + pe <= y * pe) by (nonlinear_arith)
        requires
            x < y,
            pe >= 0,
    ;
}

/// Termination of the search, for bounded trees: when no execution takes
/// more than `d` decisions and no decision point offers more than `b`
/// alternatives, paths that each come after the one before in the order of
/// exploration number at most `b` to the power `d`. By
/// `lemma_next_path_advances` the executions of one search are such paths,
/// so it ends after at most that many executions.
pub proof fn lemma_search_bounded(paths: Seq<Seq<Choice>>, b: nat, d: nat)
    requires
        b >= 1,
        forall|i: int| 0 <= i < paths.len() ==> within_bounds(#[trigger] paths[i], b, d),
        forall|i: int| 0 <= i < paths.len() - 1 ==> explored_before(#[trigger] paths[i], paths[i + 1]),
    ensures
        paths.len() <= power(b, d),
{
    if paths.len() > 0 {
        let n = paths.len() - 1;
        assert forall|i: int| 0 <= i <= n implies path_rank(#[trigger] paths[i], b, d) >= i by {
            lemma_ranks_grow(paths, b, d, i);
        }
        let last = paths[n];
        assert(path_rank(last, b, d) >= n);
        lemma_rank_tail(last, b, d, 0, last.len() as int);
        lemma_power_positive(b, (d - last.len()) as nat);
        assert(last.subrange(0, last.len() as int) =~= last);
        assert(last.subrange(0, 0) =~= Seq::<Choice>::empty());
    }
}

proof fn lemma_ranks_grow(paths: Seq<Seq<Choice>>, b: nat, d: nat, i: int)
    requires
        forall|j: int| 0 <= j < paths.len() ==> within_bounds(#[trigger] paths[j], b, d),
        forall|j: int| 0 <= j < paths.len() - 1 ==> explored_before(#[trigger] paths[j], paths[j + 1]),
        0 <= i < paths.len(),
    ensures
        path_rank(paths[i], b, d) >= i,
    decreases i,
{
    if i == 0 {
        lemma_rank_tail(paths[0], b, d, 0, paths[0].len() as int);
        assert(paths[0].subrange(0, paths[0].len() as int) =~= paths[0]);
        assert(paths[0].subrange(0, 0) =~= Seq::<Choice>::empty());
    } else {
        lemma_ranks_grow(paths, b, d, i - 1);
        lemma_rank_increases(paths[i - 1], paths[i], b, d);
    }
}

/// A decision point of the explored path.
pub struct DfsLevel {
    pub record: ScheduleRecord,
    pub index: usize,
}

impl DfsLevel {
    pub open spec fn wf(&self) -> bool {
        &&& self.index < self.record.runnable_tasks@.len()
        &&& ids_increasing(self.record.runnable_tasks@)
        &&& self.record.step == ScheduleStep::Task(self.record.runnable_tasks@[self.index as int])
    }

    pub open spec fn choice(&self) -> Choice {
        (self.record.runnable_tasks@, self.index as int)
    }
}

/// Depth-first search over all schedules, up to optional bounds on the
/// number of executions and on the number of decisions in one execution.
pub struct DfsScheduler {
    levels: Vec<DfsLevel>,
    depth: usize,
    started: bool,
    iterations: usize,
    max_iterations: Option<usize>,
    max_depth: Option<usize>,
    seed: u64,
    data: DataSource,
}

impl DfsScheduler {
    /// The decision points of the current path.
    pub closed spec fn path(&self) -> Seq<Choice> {
        self.levels@.map_values(|l: DfsLevel| l.choice())
    }

    /// Decisions taken so far in the current execution.
    pub closed spec fn depth(&self) -> nat {
        self.depth as nat
    }

    pub closed spec fn started(&self) -> bool {
        self.started
    }

    pub closed spec fn iterations(&self) -> nat {
        self.iterations as nat
    }

    pub closed spec fn max_iterations(&self) -> Option<usize> {
        self.max_iterations
    }

    pub closed spec fn max_depth(&self) -> Option<usize> {
        self.max_depth
    }

    /// A search with the given bounds; random values come from `seed`.
    pub fn new(max_iterations: Option<usize>, max_depth: Option<usize>, seed: u64) -> (r: DfsScheduler)
        ensures
            r.well_formed(),
            r.path() == Seq::<Choice>::empty(),
            r.depth() == 0,
            !r.started(),
            r.iterations() == 0,
            r.max_iterations() == max_iterations,
            r.max_depth() == max_depth,
            r.data_seed() == seed,
            r.draws() == 0,
    {
        let r = DfsScheduler {
            levels: Vec::new(),
            depth: 0,
            started: false,
            iterations: 0,
            max_iterations,
            max_depth,
            seed,
            data: DataSource::new(seed),
        };
        assert(r.path() =~= Seq::<Choice>::empty());
        r
    }
}

/// The path restricted to its first `n` decision points, seen as choices.
proof fn lemma_path_prefix(levels: Seq<DfsLevel>, n: int)
    requires
        0 <= n <= levels.len(),
    ensures
        levels.subrange(0, n).map_values(|l: DfsLevel| l.choice()) == levels.map_values(
            |l: DfsLevel| l.choice(),
        ).subrange(0, n),
{
    assert(levels.subrange(0, n).map_values(|l: DfsLevel| l.choice()) =~= levels.map_values(
        |l: DfsLevel| l.choice(),
    ).subrange(0, n));
}

impl Scheduler for DfsScheduler {
    closed spec fn well_formed(&self) -> bool {
        &&& self.data.wf()
        &&& self.data.seed == self.seed
        &&& self.depth <= self.levels@.len()
        &&& forall|k: int| 0 <= k < self.levels@.len() ==> (#[trigger] self.levels@[k]).wf()
    }

    closed spec fn data_seed(&self) -> u64 {
        self.data.seed
    }

    closed spec fn draws(&self) -> nat {
        self.data.drawn@
    }

    fn new_execution(&mut self) -> (r: Option<Schedule>)
        ensures
            final(self).max_iterations() == old(self).max_iterations(),
            final(self).max_depth() == old(self).max_depth(),
            final(self).data_seed() == old(self).data_seed(),
            r is None ==> final(self).iterations() == old(self).iterations(),
            r is Some ==> final(self).iterations() == if old(self).iterations() < usize::MAX {
                old(self).iterations() + 1
            } else {
                old(self).iterations()
            },
            (old(self).max_iterations() matches Some(m) && old(self).iterations() >= m) ==> r is None,
            !(old(self).max_iterations() matches Some(m) && old(self).iterations() >= m) ==> {
                let q = if old(self).started() {
                    next_path(old(self).path().subrange(0, old(self).depth() as int))
                } else {
                    old(self).path()
                };
                &&& old(self).started() && q.len() == 0 ==> r is None
                &&& !(old(self).started() && q.len() == 0) ==> {
                    &&& r matches Some(s) && s@.seed == old(self).data_seed() && s@.steps.len() == 0
                    &&& final(self).path() == q
                    &&& final(self).depth() == 0
                    &&& final(self).started()
                }
            },
    {
        if let Some(m) = self.max_iterations {
            if self.iterations >= m {
                return None;
            }
        }
        if self.started {
            let ghost q = next_path(self.path().subrange(0, self.depth as int));
            proof {
                lemma_path_prefix(self.levels@, self.depth as int);
            }
            self.levels.truncate(self.depth);
            self.depth = 0;
            loop
                invariant
                    self.well_formed(),
                    self.depth == 0,
                    next_path(self.path()) == q,
                    self.max_iterations == old(self).max_iterations,
                    self.max_depth == old(self).max_depth,
                    self.seed == old(self).seed,
                    self.iterations == old(self).iterations,
                    self.started,
                ensures
                    self.iterations == old(self).iterations,
                    self.well_formed(),
                    self.depth == 0,
                    next_path(self.path()) == q,
                    self.max_iterations == old(self).max_iterations,
                    self.max_depth == old(self).max_depth,
                    self.seed == old(self).seed,
                    self.levels@.len() == 0 || has_untried(self.path().last()),
                decreases self.levels@.len(),
            {
                let n = self.levels.len();
                if n == 0 {
                    break;
                }
                proof {
                    assert(self.levels@[n - 1].wf());
                    lemma_path_prefix(self.levels@, n - 1);
                    assert(self.path().last() == self.levels@[n - 1].choice());
                    assert(self.path().drop_last() =~= self.path().subrange(0, n - 1));
                }
                if self.levels[n - 1].index < self.levels[n - 1].record.runnable_tasks.len() - 1 {
                    break;
                }
                self.levels.pop();
            }
            if self.levels.len() == 0 {
                proof {
                    assert(self.path() =~= Seq::<Choice>::empty());
                }
                return None;
            }
            let ghost before = self.path();
            let mut l = match self.levels.pop() {
                Some(l) => l,
                None => {
                    return None;
                },
            };
            proof {
                let n = before.len() - 1;
                assert(before.last() == l.choice());
                assert(has_untried(before.last()));
                assert(before.drop_last() =~= self.path());
            }
            let alternatives = l.record.runnable_tasks.len();
            assert(l.index + 1 < alternatives);
            l.index = l.index + 1;
            l.record.step = ScheduleStep::Task(l.record.runnable_tasks[l.index]);
            self.levels.push(l);
            proof {
                assert(self.path() =~= before.drop_last().push((before.last().0, before.last().1 + 1)));
            }
        }
        self.started = true;
        self.depth = 0;
        if self.iterations < usize::MAX {
            self.iterations = self.iterations + 1;
        }
        self.data = DataSource::new(self.seed);
        Some(Schedule::new(self.seed))
    }

    fn next_task(
        &mut self,
        runnable_tasks: &[TaskId],
        current_task: Option<TaskId>,
        is_yielding: bool,
    ) -> (r: Option<TaskId>)
        ensures
            final(self).max_iterations() == old(self).max_iterations(),
            final(self).max_depth() == old(self).max_depth(),
            final(self).iterations() == old(self).iterations(),
            final(self).started() == old(self).started(),
            old(self).depth() < old(self).path().len() ==> {
                let c = old(self).path()[old(self).depth() as int];
                let t = c.0[c.1];
                &&& final(self).path() == old(self).path()
                &&& runnable_tasks@.contains(t) ==> r == Some(t) && final(self).depth()
                    == old(self).depth() + 1
                &&& !runnable_tasks@.contains(t) ==> r is None && final(self).depth()
                    == old(self).depth()
            },
            old(self).depth() == old(self).path().len() ==> {
                if old(self).max_depth() matches Some(m) && old(self).depth() >= m {
                    r is None && final(self).path() == old(self).path() && final(self).depth()
                        == old(self).depth()
                } else {
                    let c = final(self).path().last();
                    &&& final(self).path().len() == old(self).path().len() + 1
                    &&& final(self).path().drop_last() == old(self).path()
                    &&& ids_increasing(c.0)
                    &&& forall|t: TaskId| #[trigger] c.0.contains(t) <==> runnable_tasks@.contains(t)
                    &&& c.1 == 0
                    &&& r == Some(c.0[0])
                    &&& final(self).depth() == old(self).depth() + 1
                }
            },
    {
        if self.depth < self.levels.len() {
            let l = &self.levels[self.depth];
            let t = l.record.runnable_tasks[l.index];
            if contains_task(runnable_tasks, t) {
                self.depth = self.depth + 1;
                return Some(t);
            } else {
                return None;
            }
        }
        if let Some(m) = self.max_depth {
            if self.depth >= m {
                return None;
            }
        }
        let mut record = ScheduleRecord::new(ScheduleStep::Random, runnable_tasks);
        proof {
            assert(runnable_tasks@.contains(runnable_tasks@[0]));
            assert(record.runnable_tasks@.contains(runnable_tasks@[0]));
        }
        let t = record.runnable_tasks[0];
        proof {
            assert(record.runnable_tasks@.contains(t));
        }
        record.step = ScheduleStep::Task(t);
        self.levels.push(DfsLevel { record, index: 0 });
        self.depth = self.levels.len();
        proof {
            assert(self.path().drop_last() =~= old(self).path());
            assert(self.path().last() == self.levels@[self.levels@.len() - 1].choice());
        }
        Some(t)
    }

    fn next_u64(&mut self) -> (r: u64) {
        self.data.next_u64()
    }
}

} // verus!
