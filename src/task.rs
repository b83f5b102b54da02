//! Opaque identity of one logical concurrent task.
use vstd::prelude::*;

verus! {

/// Handle of one task for the lifetime of one execution.
#[derive(Clone, Copy, Debug, PartialEq, Eq, Hash, Structural)]
pub struct TaskId {
    pub id: usize,
}

impl TaskId {
    pub fn new(id: usize) -> (r: TaskId)
        ensures
            r.id == id,
    {
        TaskId { id }
    }

    pub fn index(&self) -> (r: usize)
        ensures
            r == self.id,
    {
        self.id
    }
}

/// Returns whether `t` occurs in `tasks`.
pub fn contains_task(tasks: &[TaskId], t: TaskId) -> (r: bool)
    ensures
        r == tasks@.contains(t),
{
    let mut i: usize = 0;
    while i < tasks.len()
        invariant
            0 <= i <= tasks@.len(),
            forall|j: int| 0 <= j < i ==> tasks@[j] != t,
        decreases tasks@.len() - i,
    {
        if tasks[i] == t {
            return true;
        }
        i = i + 1;
    }
    false
}

/// The two sequences hold the same tasks, in any order and number.
pub open spec fn same_members(a: Seq<TaskId>, b: Seq<TaskId>) -> bool {
    forall|x: TaskId| a.contains(x) <==> b.contains(x)
}

/// Returns whether every task of `a` is in `b`.
fn all_in(a: &[TaskId], b: &[TaskId]) -> (r: bool)
    ensures
        r == (forall|x: TaskId| a@.contains(x) ==> b@.contains(x)),
{
    let mut i: usize = 0;
    while i < a.len()
        invariant
            0 <= i <= a@.len(),
            forall|k: int| 0 <= k < i ==> b@.contains(#[trigger] a@[k]),
        decreases a@.len() - i,
    {
        if !contains_task(b, a[i]) {
            proof {
                assert(a@.contains(a@[i as int]));
            }
            return false;
        }
        i = i + 1;
    }
    proof {
        assert forall|x: TaskId| a@.contains(x) implies b@.contains(x) by {
            let k = choose|k: int| 0 <= k < a@.len() && a@[k] == x;
        }
    }
    true
}

/// Returns whether the two task lists hold the same set of tasks.
pub fn same_task_set(a: &[TaskId], b: &[TaskId]) -> (r: bool)
    ensures
        r == same_members(a@, b@),
{
    all_in(a, b) && all_in(b, a)
}

/// Copies a slice of task ids into a vector.
pub fn copy_tasks(a: &[TaskId]) -> (r: Vec<TaskId>)
    ensures
        r@ == a@,
{
    let mut r: Vec<TaskId> = Vec::new();
    let mut i: usize = 0;
    while i < a.len()
        invariant
            0 <= i <= a@.len(),
            r@ == a@.subrange(0, i as int),
        decreases a@.len() - i,
    {
        r.push(a[i]);
        i = i + 1;
        assert(r@ =~= a@.subrange(0, i as int));
    }
    assert(r@ =~= a@);
    r
}

/// `base` followed by the elements of `s` that are not already present, each
/// once, in order of first occurrence.
pub open spec fn extend_unique(base: Seq<TaskId>, s: Seq<TaskId>) -> Seq<TaskId>
    decreases s.len(),
{
    if s.len() == 0 {
        base
    } else {
        let p = extend_unique(base, s.drop_last());
        if p.contains(s.last()) {
            p
        } else {
            p.push(s.last())
        }
    }
}

/// What `extend_unique` keeps: the base as a prefix, membership, and
/// uniqueness.
pub proof fn lemma_extend_unique(base: Seq<TaskId>, s: Seq<TaskId>)
    ensures
        extend_unique(base, s).len() >= base.len(),
        extend_unique(base, s).subrange(0, base.len() as int) == base,
        forall|x: TaskId| #[trigger]
            extend_unique(base, s).contains(x) <==> (base.contains(x) || s.contains(x)),
        base.no_duplicates() ==> extend_unique(base, s).no_duplicates(),
    decreases s.len(),
{
    if s.len() > 0 {
        let p = extend_unique(base, s.drop_last());
        lemma_extend_unique(base, s.drop_last());
        assert forall|x: TaskId| s.contains(x) <==> (s.drop_last().contains(x) || x == s.last()) by {
            if s.contains(x) {
                let j = choose|j: int| 0 <= j < s.len() && s[j] == x;
                if j < s.len() - 1 {
                    assert(s.drop_last()[j] == x);
                }
            }
            if s.drop_last().contains(x) {
                let j = choose|j: int| 0 <= j < s.len() - 1 && s.drop_last()[j] == x;
                assert(s[j] == x);
            }
            if x == s.last() {
                assert(s[s.len() - 1] == x);
            }
        }
        if !p.contains(s.last()) {
            let q = p.push(s.last());
            assert(q.subrange(0, base.len() as int) =~= p.subrange(0, base.len() as int));
            assert forall|x: TaskId| q.contains(x) <==> (p.contains(x) || x == s.last()) by {
                if q.contains(x) {
                    let j = choose|j: int| 0 <= j < q.len() && q[j] == x;
                    if j < p.len() {
                        assert(p[j] == x);
                    }
                }
                if p.contains(x) {
                    let j = choose|j: int| 0 <= j < p.len() && p[j] == x;
                    assert(q[j] == x);
                }
                if x == s.last() {
                    assert(q[p.len() as int] == x);
                }
            }
        }
    }
}

/// Appends to `v` each task of `s` that it does not hold yet.
pub fn extend_unique_into(v: &mut Vec<TaskId>, s: &[TaskId])
    ensures
        final(v)@ == extend_unique(old(v)@, s@),
{
    let mut i: usize = 0;
    while i < s.len()
        invariant
            0 <= i <= s@.len(),
            v@ == extend_unique(old(v)@, s@.subrange(0, i as int)),
        decreases s@.len() - i,
    {
        let t = s[i];
        assert(s@.subrange(0, i as int + 1).drop_last() =~= s@.subrange(0, i as int));
        if !contains_task(v.as_slice(), t) {
            v.push(t);
        }
        i = i + 1;
    }
    assert(s@.subrange(0, s@.len() as int) =~= s@);
}

/// Ids strictly increase along `s`, so each task occurs once.
pub open spec fn ids_increasing(s: Seq<TaskId>) -> bool {
    forall|a: int, b: int| 0 <= a < b < s.len() ==> (#[trigger] s[a]).id < (#[trigger] s[b]).id
}

/// A set of tasks has one arrangement by increasing id: two such sequences
/// with the same members are equal.
pub proof fn lemma_increasing_unique(a: Seq<TaskId>, b: Seq<TaskId>)
    requires
        ids_increasing(a),
        ids_increasing(b),
        forall|x: TaskId| a.contains(x) <==> b.contains(x),
    ensures
        a == b,
    decreases a.len(),
{
    if a.len() == 0 {
        if b.len() > 0 {
            assert(b.contains(b[0]));
        }
        assert(b =~= a);
    } else {
        assert(a.contains(a[0]));
        assert(b.contains(a[0]));
        assert(b.len() > 0);
        assert(b.contains(b[0]));
        assert(a.contains(b[0]));
        let j = choose|j: int| 0 <= j < b.len() && b[j] == a[0];
        let i = choose|i: int| 0 <= i < a.len() && a[i] == b[0];
        if j > 0 {
            assert(b[0].id < b[j].id);
            if i > 0 {
                assert(a[0].id < a[i].id);
            }
        }
        assert(a[0] == b[0]);
        let a1 = a.subrange(1, a.len() as int);
        let b1 = b.subrange(1, b.len() as int);
        assert forall|x: TaskId| a1.contains(x) <==> b1.contains(x) by {
            if a1.contains(x) {
                let k = choose|k: int| 0 <= k < a1.len() && a1[k] == x;
                assert(a[k + 1] == x);
                assert(a[0].id < a[k + 1].id);
                assert(b.contains(x));
                let m = choose|m: int| 0 <= m < b.len() && b[m] == x;
                assert(m != 0);
                assert(b1[m - 1] == x);
            }
            if b1.contains(x) {
                let k = choose|k: int| 0 <= k < b1.len() && b1[k] == x;
                assert(b[k + 1] == x);
                assert(b[0].id < b[k + 1].id);
                assert(a.contains(x));
                let m = choose|m: int| 0 <= m < a.len() && a[m] == x;
                assert(m != 0);
                assert(a1[m - 1] == x);
            }
        }
        lemma_increasing_unique(a1, b1);
        assert(a =~= b1.insert(0, b[0]));
        assert(b =~= b1.insert(0, b[0]));
    }
}

/// Adds `t` to the sequence of increasing ids `v`, unless it is there.
pub fn insert_by_id(v: &mut Vec<TaskId>, t: TaskId)
    requires
        ids_increasing(old(v)@),
    ensures
        ids_increasing(final(v)@),
        forall|x: TaskId| #[trigger] final(v)@.contains(x) <==> (old(v)@.contains(x) || x == t),
{
    let mut i: usize = 0;
    while i < v.len() && v[i].id < t.id
        invariant
            0 <= i <= v@.len(),
            forall|k: int| 0 <= k < i ==> (#[trigger] v@[k]).id < t.id,
        decreases v@.len() - i,
    {
        i = i + 1;
    }
    if i < v.len() && v[i].id == t.id {
        proof {
            assert(v@[i as int] == t);
        }
        return;
    }
    let ghost before = v@;
    v.insert(i, t);
    proof {
        assert(v@ =~= before.insert(i as int, t));
        assert forall|a: int, b: int| 0 <= a < b < v@.len() implies (#[trigger] v@[a]).id < (#[trigger] v@[b]).id by {
            if i < before.len() {
                assert(before[i as int].id > t.id);
            }
            if b < i {
                assert(v@[a] == before[a] && v@[b] == before[b]);
            } else if b == i {
                assert(v@[a] == before[a]);
            } else if a == i {
                assert(v@[b] == before[b - 1]);
                if b - 1 > i {
                    assert(before[i as int].id < before[b - 1].id);
                }
            } else if a < i {
                assert(v@[a] == before[a] && v@[b] == before[b - 1]);
            } else {
                assert(v@[a] == before[a - 1] && v@[b] == before[b - 1]);
            }
        }
        assert forall|x: TaskId| #[trigger] v@.contains(x) <==> (before.contains(x) || x == t) by {
            if v@.contains(x) {
                let k = choose|k: int| 0 <= k < v@.len() && v@[k] == x;
                if k < i {
                    assert(before[k] == x);
                } else if k > i {
                    assert(before[k - 1] == x);
                }
            }
            if before.contains(x) {
                let k = choose|k: int| 0 <= k < before.len() && before[k] == x;
                if k < i {
                    assert(v@[k] == x);
                } else {
                    assert(v@[k + 1] == x);
                }
            }
            if x == t {
                assert(v@[i as int] == x);
            }
        }
    }
}

} // verus!
