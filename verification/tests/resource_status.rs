use lib::sync::resource_status::ResourceStatus;

/// One resource with `count` free units, and tasks 1 and 2 tracked.
fn two_tasks(count: isize) -> ResourceStatus {
    let mut s = ResourceStatus::new();
    s.update_resource(1, count);
    s.track_task(1);
    s.track_task(2);
    s
}

#[test]
fn new_status_has_main_task_and_no_deadlock() {
    let s = ResourceStatus::new();
    assert!(s.is_tracked(0));
    assert!(!s.is_tracked(1));
    assert_eq!(s.available_of(0), None);
    assert!(!s.will_deadlock());
}

#[test]
fn update_resource_tracks_column_in_every_row() {
    let s = two_tasks(3);
    assert_eq!(s.available_of(1), Some(3));
    for t in 0..3 {
        assert_eq!(s.allocated_of(t, 1), Some(0));
        assert_eq!(s.needed_of(t, 1), Some(0));
    }
}

#[test]
fn update_resource_adds_to_existing_count() {
    let mut s = two_tasks(3);
    s.update_resource(1, 2);
    assert_eq!(s.available_of(1), Some(5));
    s.update_resource(1, -4);
    assert_eq!(s.available_of(1), Some(1));
}

#[test]
fn track_task_copies_columns_of_main_task() {
    let mut s = ResourceStatus::new();
    s.update_resource(7, 1);
    s.update_resource(9, 2);
    s.track_task(4);
    assert_eq!(s.allocated_of(4, 7), Some(0));
    assert_eq!(s.allocated_of(4, 9), Some(0));
    assert_eq!(s.needed_of(4, 9), Some(0));
    assert_eq!(s.needed_of(4, 8), None);
}

#[test]
fn track_then_untrack_restores() {
    let mut s = two_tasks(3);
    s.track_task(5);
    assert!(s.is_tracked(5));
    s.untrack_task(5);
    assert!(!s.is_tracked(5));
    assert_eq!(s.allocated_of(5, 1), None);
    assert_eq!(s.needed_of(5, 1), None);
    assert!(s.is_tracked(1));
}

#[test]
fn update_then_forget_restores() {
    let mut s = two_tasks(3);
    s.update_resource(2, 6);
    assert_eq!(s.allocated_of(1, 2), Some(0));
    s.forget_resource(2);
    assert_eq!(s.available_of(2), None);
    assert_eq!(s.allocated_of(1, 2), None);
    assert_eq!(s.needed_of(2, 2), None);
    assert_eq!(s.available_of(1), Some(3));
}

#[test]
fn allocate_moves_units_from_pool_and_need() {
    let mut s = two_tasks(3);
    s.need(1, 1, 2);
    s.allocate(1, 1, 2);
    assert_eq!(s.available_of(1), Some(1));
    assert_eq!(s.allocated_of(1, 1), Some(2));
    assert_eq!(s.needed_of(1, 1), Some(0));
}

#[test]
fn allocate_then_release_keeps_totals() {
    let mut s = two_tasks(3);
    s.need(2, 1, 3);
    s.allocate(2, 1, 3);
    assert_eq!(s.available_of(1), Some(0));
    assert_eq!(s.release(2, 1, 3), Some(()));
    assert_eq!(s.available_of(1), Some(3));
    assert_eq!(s.allocated_of(2, 1), Some(0));
    assert_eq!(s.needed_of(2, 1), Some(0));
}

#[test]
fn release_of_untracked_task_or_resource_is_refused() {
    let mut s = two_tasks(3);
    assert_eq!(s.release(9, 1, 1), None);
    assert_eq!(s.release(1, 9, 1), None);
    assert_eq!(s.available_of(1), Some(3));
}

#[test]
fn safe_state_reports_no_deadlock() {
    let mut s = two_tasks(3);
    s.need(1, 1, 2);
    s.allocate(1, 1, 2);
    // task 1 needs nothing more and gives back 2: then task 2 can have its 2
    s.need(2, 1, 2);
    assert!(!s.will_deadlock());
}

#[test]
fn unsafe_state_reports_deadlock() {
    let mut s = two_tasks(3);
    s.need(1, 1, 2);
    s.allocate(1, 1, 2);
    s.need(2, 1, 1);
    s.allocate(2, 1, 1);
    // nothing free, and each task waits for two more units
    s.need(1, 1, 2);
    s.need(2, 1, 2);
    assert!(s.will_deadlock());
}

#[test]
fn deadlock_needs_a_whole_order_of_tasks() {
    // two resources: task 1 holds A and needs B, task 2 holds B and needs A
    let mut s = ResourceStatus::new();
    s.update_resource(10, 1);
    s.update_resource(11, 1);
    s.track_task(1);
    s.track_task(2);
    s.need(1, 10, 1);
    s.allocate(1, 10, 1);
    s.need(2, 11, 1);
    s.allocate(2, 11, 1);
    s.need(1, 11, 1);
    assert!(!s.will_deadlock());
    s.need(2, 10, 1);
    assert!(s.will_deadlock());
}

#[test]
fn no_tracked_task_is_safe() {
    let mut s = ResourceStatus::new();
    s.untrack_task(0);
    assert!(!s.will_deadlock());
}

#[test]
fn try_need_granted_keeps_need() {
    let mut s = two_tasks(3);
    assert_eq!(s.try_need(1, 1, 2), Some(()));
    assert_eq!(s.needed_of(1, 1), Some(2));
    assert_eq!(s.try_need(1, 1, 1), Some(()));
    assert_eq!(s.needed_of(1, 1), Some(3));
}

#[test]
fn try_need_refused_restores_need() {
    let mut s = two_tasks(3);
    s.need(1, 1, 2);
    s.allocate(1, 1, 2);
    s.need(2, 1, 1);
    s.allocate(2, 1, 1);
    // nothing free: task 2 can finish and free one unit, which task 1 needs
    assert_eq!(s.try_need(1, 1, 1), Some(()));
    // task 2 asking for two more would leave no order in which all finish
    assert_eq!(s.try_need(2, 1, 2), None);
    assert_eq!(s.needed_of(2, 1), Some(0));
    assert_eq!(s.needed_of(1, 1), Some(1));
}

#[test]
fn try_need_beyond_total_is_refused() {
    let mut s = two_tasks(3);
    assert_eq!(s.try_need(1, 1, 4), None);
    assert_eq!(s.needed_of(1, 1), Some(0));
}

#[test]
fn lowering_a_need_keeps_a_safe_state_safe() {
    let mut s = two_tasks(3);
    s.need(1, 1, 3);
    s.need(2, 1, 3);
    assert!(!s.will_deadlock());
    s.need(2, 1, 1);
    assert!(!s.will_deadlock());
    assert_eq!(s.needed_of(2, 1), Some(1));
}
