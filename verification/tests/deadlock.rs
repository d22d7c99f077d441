use os::deadlock::{sem_down_would_deadlock, SemView, TaskView, DEADLOCK_DETECTED};

fn running() -> Option<TaskView> {
    Some(TaskView { exit_code: None })
}

fn exited(code: i32) -> Option<TaskView> {
    Some(TaskView { exit_code: Some(code) })
}

fn sem(count: isize, waiters: Vec<usize>) -> Option<SemView> {
    Some(SemView { count, waiters })
}

#[test]
fn deadlock_code_value() {
    assert_eq!(DEADLOCK_DETECTED, -0xdead);
}

#[test]
fn unknown_semaphore_is_no_deadlock() {
    let tasks = vec![running()];
    let sems = vec![sem(0, vec![])];
    let alloc = vec![vec![0]];
    assert!(!sem_down_would_deadlock(&tasks, &sems, &alloc, 0, 1));
    assert!(!sem_down_would_deadlock(&tasks, &sems, &alloc, 0, 7));
}

#[test]
fn empty_semaphore_slot_is_no_deadlock() {
    let tasks = vec![running()];
    let sems = vec![None];
    let alloc = vec![vec![0]];
    assert!(!sem_down_would_deadlock(&tasks, &sems, &alloc, 0, 0));
}

#[test]
fn crossed_waits_deadlock() {
    // Thread 0 holds sem 0, thread 1 holds sem 1 and waits on sem 0;
    // thread 0 now asks for sem 1.
    let tasks = vec![running(), running()];
    let sems = vec![sem(0, vec![1]), sem(0, vec![])];
    let alloc = vec![vec![1, 0], vec![0, 1]];
    assert!(sem_down_would_deadlock(&tasks, &sems, &alloc, 0, 1));
}

#[test]
fn holder_that_can_finish_makes_it_safe() {
    // Thread 1 holds sem 1 but waits for nothing: it can finish and give it back.
    let tasks = vec![running(), running()];
    let sems = vec![sem(0, vec![]), sem(0, vec![])];
    let alloc = vec![vec![1, 0], vec![0, 1]];
    assert!(!sem_down_would_deadlock(&tasks, &sems, &alloc, 0, 1));
}

#[test]
fn exited_holder_never_gives_back() {
    // Thread 1 exited while holding sem 1: nobody will release it.
    let tasks = vec![running(), exited(0)];
    let sems = vec![sem(0, vec![]), sem(0, vec![])];
    let alloc = vec![vec![0, 0], vec![0, 1]];
    assert!(sem_down_would_deadlock(&tasks, &sems, &alloc, 0, 1));
}

#[test]
fn empty_thread_slot_is_ignored() {
    let tasks = vec![running(), None];
    let sems = vec![sem(1, vec![])];
    let alloc = vec![vec![0], vec![5]];
    assert!(!sem_down_would_deadlock(&tasks, &sems, &alloc, 0, 0));
}

#[test]
fn available_unit_makes_request_safe() {
    let tasks = vec![running()];
    let sems = vec![sem(1, vec![])];
    let alloc = vec![vec![0]];
    assert!(!sem_down_would_deadlock(&tasks, &sems, &alloc, 0, 0));
}

#[test]
fn negative_count_counts_as_zero() {
    let tasks = vec![running()];
    let sems = vec![sem(-3, vec![])];
    let alloc = vec![vec![0]];
    assert!(sem_down_would_deadlock(&tasks, &sems, &alloc, 0, 0));
}

#[test]
fn request_of_unknown_thread_is_not_added() {
    // tid 5 names no thread slot: only the queued waits count.
    let tasks = vec![running()];
    let sems = vec![sem(0, vec![])];
    let alloc = vec![vec![0]];
    assert!(!sem_down_would_deadlock(&tasks, &sems, &alloc, 5, 0));
}

#[test]
fn waiters_beyond_the_threads_are_ignored() {
    let tasks = vec![running()];
    let sems = vec![sem(0, vec![9, 9])];
    let alloc = vec![vec![0]];
    assert!(!sem_down_would_deadlock(&tasks, &sems, &alloc, 9, 0));
}

#[test]
fn short_allocation_covers_the_first_threads() {
    // Only thread 0 has an allocation row; thread 1 holds nothing.
    let tasks = vec![running(), running()];
    let sems = vec![sem(0, vec![1])];
    let alloc = vec![vec![1]];
    // Thread 0 can finish and release sem 0 to thread 1.
    assert!(!sem_down_would_deadlock(&tasks, &sems, &alloc, 5, 0));
    // Thread 0 waits for the unit it holds itself.
    assert!(sem_down_would_deadlock(&tasks, &sems, &alloc, 0, 0));
}

#[test]
fn chain_of_releases_is_safe() {
    // 0 waits for what 1 holds, 1 waits for what 2 holds, 2 can finish.
    let tasks = vec![running(), running(), running()];
    let sems = vec![sem(0, vec![]), sem(0, vec![0]), sem(0, vec![1])];
    let alloc = vec![vec![1, 0, 0], vec![0, 1, 0], vec![0, 0, 1]];
    assert!(!sem_down_would_deadlock(&tasks, &sems, &alloc, 9, 0));
    // Now 2 asks for what 0 holds: a cycle.
    assert!(sem_down_would_deadlock(&tasks, &sems, &alloc, 2, 0));
}

#[test]
fn order_of_finishing_does_not_matter() {
    // Thread 2 can finish only after thread 1, which sits later in a first pass.
    let tasks = vec![running(), running(), running()];
    let sems = vec![sem(0, vec![2]), sem(0, vec![0])];
    let alloc = vec![vec![0, 0], vec![1, 1], vec![0, 0]];
    assert!(!sem_down_would_deadlock(&tasks, &sems, &alloc, 9, 0));
}

#[test]
fn more_units_never_create_a_deadlock() {
    let tasks = vec![running(), running()];
    let alloc1 = vec![vec![1, 0], vec![0, 1]];
    let sems1 = vec![sem(0, vec![1]), sem(1, vec![])];
    assert!(!sem_down_would_deadlock(&tasks, &sems1, &alloc1, 0, 1));
    // Larger counts and larger holdings, same waits and request.
    let alloc2 = vec![vec![1, 0], vec![2, 1]];
    let sems2 = vec![sem(3, vec![1]), sem(2, vec![])];
    assert!(!sem_down_would_deadlock(&tasks, &sems2, &alloc2, 0, 1));
}

#[test]
fn invalid_semaphore_needs_no_allocation() {
    let tasks = vec![running(), running()];
    let sems = vec![None, sem(0, vec![])];
    let alloc: Vec<Vec<usize>> = Vec::new();
    assert!(!sem_down_would_deadlock(&tasks, &sems, &alloc, 9, 0));
    assert!(!sem_down_would_deadlock(&tasks, &sems, &alloc, 9, 2));
}
