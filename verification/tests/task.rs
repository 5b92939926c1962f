use ternary_scheduler::Task;

#[test]
fn task_new_has_defaults() {
    let t = Task::new(4, -1);
    assert_eq!(t.id, 4);
    assert_eq!(t.priority, -1);
    assert_eq!(t.deadline, None);
    assert_eq!(t.duration, 1);
    assert!(t.dependencies.is_empty());
}

#[test]
fn task_builders_set_one_field_each() {
    let t = Task::new(1, 0).with_deadline(9).with_duration(4).depends_on(&[5, 6, 5]);
    assert_eq!(t.id, 1);
    assert_eq!(t.priority, 0);
    assert_eq!(t.deadline, Some(9));
    assert_eq!(t.duration, 4);
    assert_eq!(t.dependencies, vec![5, 6, 5]);
    let u = t.clone().depends_on(&[]);
    assert!(u.dependencies.is_empty());
    assert_eq!(u.deadline, Some(9));
}
