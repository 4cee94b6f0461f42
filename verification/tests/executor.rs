use protostar_works::executor::{Executor, TaskId};

#[test]
fn test_executor_works() {
    // One task that finishes on its first poll, as `prints_value` does.
    let mut executor = Executor::new();
    executor.spawn(TaskId(0));
    let mut polls = 0;
    while !executor.is_empty() {
        while let Some(id) = executor.next_ready() {
            polls += 1;
            executor.complete(id);
        }
    }
    assert_eq!(polls, 1);
}

#[test]
fn woken_tasks_are_polled_in_order_and_finished_ones_skipped() {
    let mut executor = Executor::new();
    executor.spawn(TaskId(7));
    executor.spawn(TaskId(3));
    assert_eq!(executor.next_ready(), Some(TaskId(7)));
    executor.wake_task(TaskId(7));
    assert_eq!(executor.next_ready(), Some(TaskId(3)));
    executor.complete(TaskId(3));
    executor.wake_task(TaskId(3));
    assert_eq!(executor.next_ready(), Some(TaskId(7)));
    assert_eq!(executor.next_ready(), None);
    assert!(!executor.is_empty());
    executor.complete(TaskId(7));
    assert!(executor.is_empty());
}
