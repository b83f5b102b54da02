use interleave::rng::{DataSource, Rng, ZERO_SEED_STATE};
use interleave::schedule::{Schedule, ScheduleRecord, ScheduleStep};
use interleave::task::TaskId;

fn ids(v: &[usize]) -> Vec<TaskId> {
    v.iter().map(|&i| TaskId::new(i)).collect()
}

#[test]
fn new_schedule_is_empty() {
    let s = Schedule::new(7);
    assert_eq!(s.len(), 0);
    assert!(s.is_empty());
    assert_eq!(s.seed(), 7);
}

#[test]
fn pushes_append_in_order() {
    let mut s = Schedule::new(3);
    s.push_task(TaskId::new(2));
    s.push_random();
    s.push_task(TaskId::new(0));
    assert_eq!(s.len(), 3);
    assert!(!s.is_empty());
    assert_eq!(s.step(0), ScheduleStep::Task(TaskId::new(2)));
    assert_eq!(s.step(1), ScheduleStep::Random);
    assert_eq!(s.step(2), ScheduleStep::Task(TaskId::new(0)));
    assert_eq!(s.seed(), 3);
}

#[test]
fn schedule_from_task_ids() {
    let s = Schedule::new_from_task_ids(9, &ids(&[4, 1, 4]));
    assert_eq!(s.len(), 3);
    assert_eq!(s.seed(), 9);
    assert_eq!(s.step(0), ScheduleStep::Task(TaskId::new(4)));
    assert_eq!(s.step(1), ScheduleStep::Task(TaskId::new(1)));
    assert_eq!(s.step(2), ScheduleStep::Task(TaskId::new(4)));
    let mut t = Schedule::new(9);
    t.push_task(TaskId::new(4));
    t.push_task(TaskId::new(1));
    t.push_task(TaskId::new(4));
    assert!(s == t);
    t.push_random();
    assert!(s != t);
    assert!(Schedule::new(1) != Schedule::new(2));
}

#[test]
fn duplicate_is_equal() {
    let mut s = Schedule::new(5);
    s.push_random();
    s.push_task(TaskId::new(1));
    let d = s.duplicate();
    assert!(d == s);
    assert_eq!(d.len(), 2);
}

#[test]
fn record_collapses_repeated_ids() {
    let r = ScheduleRecord::new(ScheduleStep::Task(TaskId::new(3)), &ids(&[3, 1, 3, 2, 1]));
    assert_eq!(r.step, ScheduleStep::Task(TaskId::new(3)));
    assert_eq!(r.runnable_tasks, ids(&[1, 2, 3]));
}

#[test]
fn record_ignores_option_order() {
    let step = ScheduleStep::Task(TaskId::new(0));
    let a = ScheduleRecord::new(step, &ids(&[0, 5]));
    let b = ScheduleRecord::new(step, &ids(&[5, 0, 5]));
    assert_eq!(a, b);
    assert_ne!(a, ScheduleRecord::new(step, &ids(&[0])));
}

#[test]
fn xorshift_first_value() {
    let mut r = Rng::seeded(1);
    assert_eq!(r.next_u64(), 1082269761);
}

#[test]
fn zero_seed_is_replaced() {
    let r = Rng::seeded(0);
    assert_eq!(r.state, ZERO_SEED_STATE);
    let mut a = Rng::seeded(0);
    let mut b = Rng::seeded(ZERO_SEED_STATE);
    assert_eq!(a.next_u64(), b.next_u64());
}

#[test]
fn below_stays_in_range() {
    let mut r = Rng::seeded(42);
    for n in 1..50usize {
        assert!(r.below(n) < n);
    }
}

#[test]
fn data_source_repeats_for_same_seed() {
    let mut a = DataSource::new(11);
    let mut b = DataSource::new(11);
    let mut c = DataSource::new(12);
    let va: Vec<u64> = (0..5).map(|_| a.next_u64()).collect();
    let vb: Vec<u64> = (0..5).map(|_| b.next_u64()).collect();
    let vc: Vec<u64> = (0..5).map(|_| c.next_u64()).collect();
    assert_eq!(va, vb);
    assert_ne!(va, vc);
}
