use ternary_scheduler::{Scheduler, Task};

#[test]
fn test_priority_ordering() {
    let mut s = Scheduler::new();
    s.add_task(Task::new(1, -1));
    s.add_task(Task::new(2, 1));
    s.add_task(Task::new(3, 0));
    let order: Vec<usize> = s.schedule().iter().map(|t| t.id).collect();
    assert_eq!(order, vec![2, 3, 1]);
}

#[test]
fn test_deadline_ordering() {
    let mut s = Scheduler::new();
    s.add_task(Task::new(1, 0).with_deadline(100));
    s.add_task(Task::new(2, 0).with_deadline(50));
    s.add_task(Task::new(3, 0).with_deadline(200));
    let order: Vec<usize> = s.schedule().iter().map(|t| t.id).collect();
    assert_eq!(order, vec![2, 1, 3]);
}

#[test]
fn test_reschedule_escalation() {
    let mut s = Scheduler::new();
    s.add_task(Task::new(1, 0).with_deadline(10).with_duration(3));
    let escalated = s.reschedule(5); // 5 remaining, duration*2=6 -> escalate
    assert_eq!(escalated, 1);
    assert_eq!(s.tasks[&1].priority, 1);
}

#[test]
fn test_defer() {
    let mut s = Scheduler::new();
    s.add_task(Task::new(1, 0));
    assert!(s.defer(1, 10));
    assert_eq!(s.tasks[&1].priority, -1);
}

#[test]
fn test_schedule_empty() {
    let s = Scheduler::new();
    assert!(s.schedule().is_empty());
}

// Same-priority tasks without deadlines sort after those with deadlines, and
// all sort after higher-priority tasks.
#[test]
fn test_schedule_priority_desc_then_deadline_asc() {
    let mut s = Scheduler::new();
    s.add_task(Task::new(1, 0).with_deadline(10));
    s.add_task(Task::new(2, 1));
    s.add_task(Task::new(3, 0).with_deadline(5));
    s.add_task(Task::new(4, -1));
    let order: Vec<usize> = s.schedule().iter().map(|t| t.id).collect();
    assert_eq!(order, vec![2, 3, 1, 4]);
}

#[test]
fn test_reschedule_no_deadline_not_escalated() {
    let mut s = Scheduler::new();
    s.add_task(Task::new(1, 0).with_duration(3));
    assert_eq!(s.reschedule(0), 0);
    assert_eq!(s.tasks[&1].priority, 0);
}

#[test]
fn test_reschedule_skips_non_normal_priority() {
    let mut s = Scheduler::new();
    s.add_task(Task::new(1, -1).with_deadline(10).with_duration(3));
    s.add_task(Task::new(2, 1).with_deadline(10).with_duration(3));
    assert_eq!(s.reschedule(9), 0);
    assert_eq!(s.tasks[&1].priority, -1);
    assert_eq!(s.tasks[&2].priority, 1);
}

#[test]
fn test_reschedule_no_escalation_when_far_from_deadline() {
    let mut s = Scheduler::new();
    s.add_task(Task::new(1, 0).with_deadline(100).with_duration(3));
    // remaining = 95, duration*2 = 6 -> no escalation
    assert_eq!(s.reschedule(5), 0);
    assert_eq!(s.tasks[&1].priority, 0);
}

#[test]
fn test_reschedule_idempotent() {
    let mut s = Scheduler::new();
    s.add_task(Task::new(1, 0).with_deadline(10).with_duration(3));
    assert_eq!(s.reschedule(5), 1);
    assert_eq!(s.reschedule(5), 0);
    assert_eq!(s.tasks[&1].priority, 1);
}

#[test]
fn test_reschedule_escalates_past_deadline() {
    let mut s = Scheduler::new();
    s.add_task(Task::new(1, 0).with_deadline(5).with_duration(2));
    assert_eq!(s.reschedule(100), 1);
    assert_eq!(s.tasks[&1].priority, 1);
}

#[test]
fn test_defer_missing_task_returns_false() {
    let mut s = Scheduler::new();
    s.add_task(Task::new(1, 0));
    assert!(!s.defer(999, 10));
    assert_eq!(s.tasks[&1].priority, 0);
}

#[test]
fn test_scheduler_default() {
    let s = Scheduler::default();
    assert!(s.tasks.is_empty());
    assert!(s.schedule().is_empty());
}

// --- further cases ---

#[test]
fn add_task_replaces_task_with_same_id() {
    let mut s = Scheduler::new();
    s.add_task(Task::new(7, 0));
    s.add_task(Task::new(7, -1).with_deadline(3));
    assert_eq!(s.tasks.len(), 1);
    assert_eq!(s.tasks[&7].priority, -1);
    assert_eq!(s.tasks[&7].deadline, Some(3));
}

#[test]
fn schedule_lists_every_task_once() {
    let mut s = Scheduler::new();
    for id in 0..20 {
        let p = (id % 3) as i8 - 1;
        s.add_task(Task::new(id, p).with_deadline(100 - id));
    }
    let order = s.schedule();
    assert_eq!(order.len(), 20);
    let mut ids: Vec<usize> = order.iter().map(|t| t.id).collect();
    ids.sort();
    assert_eq!(ids, (0..20).collect::<Vec<usize>>());
    for w in order.windows(2) {
        let (a, b) = (w[0], w[1]);
        assert!(a.priority > b.priority || (a.priority == b.priority && a.deadline <= b.deadline));
    }
}

#[test]
fn schedule_puts_missing_deadline_after_latest_deadline() {
    let mut s = Scheduler::new();
    s.add_task(Task::new(1, 0));
    s.add_task(Task::new(2, 0).with_deadline(usize::MAX - 1));
    let order: Vec<usize> = s.schedule().iter().map(|t| t.id).collect();
    assert_eq!(order, vec![2, 1]);
}

#[test]
fn reschedule_boundary_is_inclusive() {
    let mut s = Scheduler::new();
    // remaining = 6 == 2 * duration -> escalates; remaining = 7 does not
    s.add_task(Task::new(1, 0).with_deadline(16).with_duration(3));
    s.add_task(Task::new(2, 0).with_deadline(17).with_duration(3));
    assert_eq!(s.reschedule(10), 1);
    assert_eq!(s.tasks[&1].priority, 1);
    assert_eq!(s.tasks[&2].priority, 0);
}

#[test]
fn reschedule_counts_every_escalation_and_keeps_other_fields() {
    let mut s = Scheduler::new();
    s.add_task(Task::new(1, 0).with_deadline(4).with_duration(2).depends_on(&[2, 3]));
    s.add_task(Task::new(2, 0).with_deadline(3));
    s.add_task(Task::new(3, 0).with_deadline(50));
    assert_eq!(s.reschedule(1), 2);
    let t1 = &s.tasks[&1];
    assert_eq!(t1.priority, 1);
    assert_eq!(t1.deadline, Some(4));
    assert_eq!(t1.duration, 2);
    assert_eq!(t1.dependencies, vec![2, 3]);
    assert_eq!(s.tasks[&2].priority, 1);
    assert_eq!(s.tasks[&3].priority, 0);
}

#[test]
fn defer_then_schedule_puts_task_last() {
    let mut s = Scheduler::new();
    s.add_task(Task::new(1, 1));
    s.add_task(Task::new(2, 0));
    assert!(s.defer(1, 0));
    let order: Vec<usize> = s.schedule().iter().map(|t| t.id).collect();
    assert_eq!(order, vec![2, 1]);
}

#[test]
fn busy_ticks_counts_productive_ticks() {
    let history: Vec<Option<usize>> = vec![Some(1), None, Some(3), Some(4), None];
    assert_eq!(Scheduler::busy_ticks(&history), 3);
    assert_eq!(Scheduler::busy_ticks(&[]), 0);
    assert_eq!(Scheduler::busy_ticks(&[None, None]), 0);
    assert_eq!(Scheduler::busy_ticks(&[Some(0), Some(0)]), 2);
    let util = Scheduler::busy_ticks(&history) as f64 / history.len() as f64;
    assert!((util - 0.6).abs() < 1e-10);
}

#[test]
fn schedule_keeps_map_order_among_ties() {
    let mut s = Scheduler::new();
    for id in 0..30 {
        s.add_task(Task::new(id, 0).with_deadline(7));
    }
    s.add_task(Task::new(100, 1));
    let listed: Vec<usize> = s.tasks.iter().map(|(k, _)| *k).filter(|k| *k != 100).collect();
    let order: Vec<usize> = s.schedule().iter().map(|t| t.id).collect();
    assert_eq!(order[0], 100);
    assert_eq!(order[1..].to_vec(), listed);
}
