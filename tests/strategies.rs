use interleave::determinism_check::DeterminismCheckScheduler;
use interleave::{
    DfsScheduler, PctScheduler, RandomScheduler, ReplayScheduler, RoundRobinScheduler, Schedule,
    Scheduler, TaskId,
};

fn ids(v: &[usize]) -> Vec<TaskId> {
    v.iter().map(|&i| TaskId::new(i)).collect()
}

/// One call that the engine makes during an execution.
#[derive(Clone)]
enum Call {
    Offer(Vec<TaskId>),
    Draw,
}

#[derive(Clone, Debug, PartialEq)]
enum Answer {
    Chose(Option<TaskId>),
    Value(u64),
}

/// Runs one execution the way the engine does, recording the schedule.
fn drive<S: Scheduler>(s: &mut S, calls: &[Call]) -> Option<(Schedule, Vec<Answer>)> {
    let mut schedule = s.new_execution()?;
    let mut answers = Vec::new();
    let mut current = None;
    for call in calls {
        match call {
            Call::Offer(rs) => {
                let r = s.next_task(rs, current, false);
                if let Some(t) = r {
                    assert!(rs.contains(&t));
                    schedule.push_task(t);
                    current = Some(t);
                }
                answers.push(Answer::Chose(r));
                if r.is_none() {
                    break;
                }
            }
            Call::Draw => {
                let v = s.next_u64();
                schedule.push_random();
                answers.push(Answer::Value(v));
            }
        }
    }
    Some((schedule, answers))
}

fn mixed_calls() -> Vec<Call> {
    vec![
        Call::Offer(ids(&[0, 1, 2])),
        Call::Draw,
        Call::Offer(ids(&[1, 2])),
        Call::Draw,
        Call::Draw,
        Call::Offer(ids(&[0, 2])),
        Call::Offer(ids(&[2])),
    ]
}

fn replay_matches(schedule: &Schedule, calls: &[Call], answers: &[Answer]) {
    let mut replay = ReplayScheduler::new(schedule);
    assert!(ReplayScheduler::new(schedule).new_execution().unwrap() == *schedule);
    let (_, replayed) = drive(&mut replay, calls).unwrap();
    assert_eq!(replayed, answers);
    assert!(!replay.diverged());
    assert!(replay.new_execution().is_none());
}

#[test]
fn replay_reproduces_random_scheduler() {
    let mut s = RandomScheduler::new(3, 42);
    for _ in 0..3 {
        let (schedule, answers) = drive(&mut s, &mixed_calls()).unwrap();
        replay_matches(&schedule, &mixed_calls(), &answers);
    }
    assert!(s.new_execution().is_none());
}

#[test]
fn replay_reproduces_pct_scheduler() {
    let mut s = PctScheduler::new(3, 4, 42);
    for _ in 0..4 {
        let (schedule, answers) = drive(&mut s, &mixed_calls()).unwrap();
        replay_matches(&schedule, &mixed_calls(), &answers);
    }
    assert!(s.new_execution().is_none());
}

#[test]
fn replay_reproduces_dfs_and_round_robin() {
    let mut d = DfsScheduler::new(None, None, 5);
    let (schedule, answers) = drive(&mut d, &mixed_calls()).unwrap();
    replay_matches(&schedule, &mixed_calls(), &answers);
    let mut r = RoundRobinScheduler::new(1, 5);
    let (schedule, answers) = drive(&mut r, &mixed_calls()).unwrap();
    replay_matches(&schedule, &mixed_calls(), &answers);
}

#[test]
fn replay_reports_divergence() {
    let schedule = Schedule::new_from_task_ids(1, &ids(&[1, 0]));
    let mut replay = ReplayScheduler::new(&schedule);
    assert!(replay.new_execution().unwrap() == schedule);
    assert_eq!(replay.next_task(&ids(&[0, 1]), None, false), Some(TaskId::new(1)));
    assert!(!replay.diverged());
    assert_eq!(replay.next_task(&ids(&[1, 2]), Some(TaskId::new(1)), false), None);
    assert!(replay.diverged());
    assert_eq!(replay.next_task(&ids(&[0]), None, false), None);
}

#[test]
fn replay_reports_wrong_kind_of_step() {
    let schedule = Schedule::new_from_task_ids(1, &ids(&[1]));
    let mut replay = ReplayScheduler::new(&schedule);
    replay.new_execution().unwrap();
    replay.next_u64();
    assert!(replay.diverged());
}

#[test]
fn replay_ends_without_divergence() {
    let schedule = Schedule::new_from_task_ids(1, &ids(&[0]));
    let mut replay = ReplayScheduler::new(&schedule);
    replay.new_execution().unwrap();
    assert_eq!(replay.next_task(&ids(&[0]), None, false), Some(TaskId::new(0)));
    assert_eq!(replay.next_task(&ids(&[0]), Some(TaskId::new(0)), false), None);
    assert!(!replay.diverged());
}

/// Offers every task that has not run yet, until all three ran.
fn run_permutation<S: Scheduler>(s: &mut S) -> Option<Vec<usize>> {
    s.new_execution()?;
    let mut left = vec![0usize, 1, 2];
    let mut order = Vec::new();
    let mut current = None;
    while !left.is_empty() {
        let offer = ids(&left);
        let t = s.next_task(&offer, current, false).unwrap();
        assert!(offer.contains(&t));
        order.push(t.index());
        left.retain(|&x| x != t.index());
        current = Some(t);
    }
    Some(order)
}

#[test]
fn dfs_three_tasks_every_order_once() {
    let mut s = DfsScheduler::new(None, None, 42);
    let mut seen: Vec<Vec<usize>> = Vec::new();
    let mut calls = 0;
    loop {
        calls += 1;
        match run_permutation(&mut s) {
            Some(order) => {
                assert!(!seen.contains(&order));
                seen.push(order);
            }
            None => break,
        }
    }
    assert_eq!(seen.len(), 6);
    assert_eq!(calls, 7);
    let firsts: Vec<usize> = seen.iter().map(|o| o[0]).collect();
    assert!(firsts.contains(&0) && firsts.contains(&1) && firsts.contains(&2));
    let ab = seen.iter().filter(|o| o[0] == 0 && o[1] == 1).count();
    assert_eq!(ab, 1);
    assert_eq!(seen[0], vec![0, 1, 2]);
    assert_eq!(seen[1], vec![0, 2, 1]);
    assert_eq!(seen[2], vec![1, 0, 2]);
    assert!(s.new_execution().is_none());
}

#[test]
fn dfs_depth_bound_prunes() {
    let mut s = DfsScheduler::new(None, Some(1), 0);
    s.new_execution().unwrap();
    assert_eq!(s.next_task(&ids(&[0, 1]), None, false), Some(TaskId::new(0)));
    assert_eq!(s.next_task(&ids(&[0, 1]), Some(TaskId::new(0)), false), None);
    s.new_execution().unwrap();
    assert_eq!(s.next_task(&ids(&[0, 1]), None, false), Some(TaskId::new(1)));
    assert!(s.new_execution().is_none());
}

#[test]
fn dfs_iteration_bound_stops() {
    let mut s = DfsScheduler::new(Some(2), None, 0);
    assert!(run_permutation(&mut s).is_some());
    assert!(run_permutation(&mut s).is_some());
    assert!(s.new_execution().is_none());
}

#[test]
fn dfs_single_path_tree() {
    let mut s = DfsScheduler::new(None, None, 0);
    s.new_execution().unwrap();
    assert_eq!(s.next_task(&ids(&[4, 4]), None, false), Some(TaskId::new(4)));
    assert!(s.new_execution().is_none());
}

#[test]
fn pct_same_seed_same_run() {
    let mut a = PctScheduler::new(3, 5, 42);
    let mut b = PctScheduler::new(3, 5, 42);
    for _ in 0..5 {
        let ra = drive(&mut a, &mixed_calls()).unwrap();
        let rb = drive(&mut b, &mixed_calls()).unwrap();
        assert!(ra.0 == rb.0);
        assert_eq!(ra.1, rb.1);
    }
}

#[test]
fn pct_yielding_task_is_lowered() {
    let mut s = PctScheduler::new(1, 1, 8);
    s.new_execution().unwrap();
    let first = s.next_task(&ids(&[0, 1]), None, false).unwrap();
    let second = s.next_task(&ids(&[0, 1]), Some(first), true).unwrap();
    assert_ne!(first, second);
}

#[test]
fn round_robin_rotates() {
    let mut s = RoundRobinScheduler::new(1, 0);
    s.new_execution().unwrap();
    let offer = ids(&[0, 1, 2]);
    let mut order = Vec::new();
    let mut current = None;
    for _ in 0..6 {
        let t = s.next_task(&offer, current, false).unwrap();
        order.push(t.index());
        current = Some(t);
    }
    assert_eq!(order, vec![0, 1, 2, 0, 1, 2]);
    assert!(s.new_execution().is_none());
}

#[test]
fn round_robin_waits_at_most_n_minus_one() {
    let mut s = RoundRobinScheduler::new(1, 0);
    s.new_execution().unwrap();
    let offers = [ids(&[0, 1, 2, 3]), ids(&[0, 2]), ids(&[0, 1, 2, 3]), ids(&[0, 3]), ids(&[0, 1])];
    let mut last_zero: Option<usize> = None;
    let mut current = None;
    for step in 0..40 {
        let offer = &offers[step % offers.len()];
        let t = s.next_task(offer, current, false).unwrap();
        if t.index() == 0 {
            if let Some(l) = last_zero {
                assert!(step - l - 1 <= 3);
            }
            last_zero = Some(step);
        }
        current = Some(t);
    }
}

#[test]
fn round_robin_new_task_goes_last() {
    let mut s = RoundRobinScheduler::new(1, 0);
    s.new_execution().unwrap();
    assert_eq!(s.next_task(&ids(&[0, 1]), None, false), Some(TaskId::new(0)));
    assert_eq!(s.next_task(&ids(&[0, 1, 2]), Some(TaskId::new(0)), false), Some(TaskId::new(1)));
    assert_eq!(s.next_task(&ids(&[0, 1, 2]), Some(TaskId::new(1)), false), Some(TaskId::new(0)));
    assert_eq!(s.next_task(&ids(&[0, 1, 2]), Some(TaskId::new(0)), false), Some(TaskId::new(2)));
}

#[test]
fn random_choices_are_runnable() {
    let mut s = RandomScheduler::new(20, 7);
    let offer = ids(&[3, 5, 9]);
    while s.new_execution().is_some() {
        for _ in 0..10 {
            let t = s.next_task(&offer, None, false).unwrap();
            assert!(offer.contains(&t));
        }
    }
}

#[test]
fn determinism_check_same_offers_pass() {
    let mut s = DeterminismCheckScheduler::new(RandomScheduler::new(2, 3));
    for _ in 0..4 {
        let (_, answers) = drive(&mut s, &mixed_calls()).unwrap();
        assert!(!answers.contains(&Answer::Chose(None)));
    }
    assert!(!s.violation_detected());
    assert!(s.new_execution().is_none());
}

#[test]
fn determinism_check_different_offer_is_violation() {
    let mut s = DeterminismCheckScheduler::new(RandomScheduler::new(2, 3));
    let first = drive(&mut s, &mixed_calls()).unwrap();
    assert!(!s.violation_detected());
    let mut changed = mixed_calls();
    changed[2] = Call::Offer(ids(&[1, 2, 3]));
    let second = drive(&mut s, &changed).unwrap();
    assert!(first.0.seed() == second.0.seed());
    assert!(s.violation_detected());
}

#[test]
fn determinism_check_different_call_kind_is_violation() {
    let mut s = DeterminismCheckScheduler::new(PctScheduler::new(2, 1, 3));
    drive(&mut s, &mixed_calls()).unwrap();
    let mut changed = mixed_calls();
    changed.swap(0, 1);
    drive(&mut s, &changed).unwrap();
    assert!(s.violation_detected());
}

#[test]
fn replay_of_empty_schedule() {
    let schedule = Schedule::new(4);
    let mut replay = ReplayScheduler::new(&schedule);
    assert!(replay.new_execution().unwrap().is_empty());
    assert_eq!(replay.next_task(&ids(&[0]), None, false), None);
    assert!(!replay.diverged());
    assert!(replay.new_execution().is_none());
}

#[test]
fn pct_without_change_points_keeps_order() {
    let mut s = PctScheduler::new(0, 1, 5);
    s.new_execution().unwrap();
    let offer = ids(&[0, 1, 2]);
    let first = s.next_task(&offer, None, false).unwrap();
    for _ in 0..10 {
        assert_eq!(s.next_task(&offer, Some(first), false), Some(first));
    }
    assert!(s.new_execution().is_none());
}

#[test]
fn random_values_follow_returned_seed() {
    let mut s = RandomScheduler::new(1, 9);
    let schedule = s.new_execution().unwrap();
    let mut source = interleave::rng::DataSource::new(schedule.seed());
    for _ in 0..4 {
        assert_eq!(s.next_u64(), source.next_u64());
    }
}

#[test]
fn round_robin_zero_iterations() {
    let mut s = RoundRobinScheduler::new(0, 1);
    assert!(s.new_execution().is_none());
}

#[test]
fn determinism_check_same_set_other_order_passes() {
    let mut s = DeterminismCheckScheduler::new(RoundRobinScheduler::new(1, 3));
    let first = drive(&mut s, &mixed_calls()).unwrap();
    let mut reordered = mixed_calls();
    reordered[0] = Call::Offer(ids(&[2, 0, 1]));
    reordered[2] = Call::Offer(ids(&[2, 1, 2]));
    let second = drive(&mut s, &reordered).unwrap();
    assert!(!s.violation_detected());
    assert_eq!(first.1, second.1);
    assert!(first.0 == second.0);
}
