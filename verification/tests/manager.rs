use os::manager::{TaskManager, TaskSched};

fn task(tid: usize, ready: bool, stride: usize, priority: usize) -> TaskSched {
    TaskSched { tid, ready, stride, priority }
}

#[test]
fn fetch_from_empty_queue() {
    let mut m = TaskManager::new(100);
    assert!(m.fetch().is_none());
}

#[test]
fn fetch_takes_smallest_stride() {
    let mut m = TaskManager::new(120);
    m.add(task(1, true, 30, 4));
    m.add(task(2, true, 10, 6));
    m.add(task(3, true, 20, 2));
    let t = m.fetch().unwrap();
    assert_eq!(t.tid, 2);
    assert_eq!(t.stride, 10 + 120 / 6);
    assert_eq!(m.len(), 2);
    let t = m.fetch().unwrap();
    assert_eq!(t.tid, 3);
    assert_eq!(t.stride, 20 + 60);
    let t = m.fetch().unwrap();
    assert_eq!(t.tid, 1);
    assert!(m.fetch().is_none());
}

#[test]
fn low_priority_counts_as_two() {
    let mut m = TaskManager::new(100);
    m.add(task(1, true, 0, 0));
    m.add(task(2, true, 5, 1));
    assert_eq!(m.fetch().unwrap().stride, 50);
    assert_eq!(m.fetch().unwrap().stride, 55);
}

#[test]
fn stride_saturates() {
    let mut m = TaskManager::new(100);
    m.add(task(1, true, usize::MAX - 10, 2));
    assert_eq!(m.fetch().unwrap().stride, usize::MAX);
}

#[test]
fn tasks_not_ready_are_skipped() {
    let mut m = TaskManager::new(100);
    m.add(task(1, false, 0, 2));
    m.add(task(2, true, 50, 2));
    let t = m.fetch().unwrap();
    assert_eq!(t.tid, 2);
    assert_eq!(m.len(), 1);
    assert!(m.fetch().is_none());
    assert_eq!(m.len(), 1);
}

#[test]
fn equal_strides_go_round_robin() {
    let mut m = TaskManager::new(0);
    m.add(task(1, true, 7, 2));
    m.add(task(2, true, 7, 2));
    m.add(task(3, true, 7, 2));
    // Nothing added back: the tasks come in queue order.
    assert_eq!(m.fetch().unwrap().tid, 1);
    assert_eq!(m.fetch().unwrap().tid, 2);
    assert_eq!(m.fetch().unwrap().tid, 3);
    assert!(m.fetch().is_none());
}

#[test]
fn round_robin_with_tasks_added_back() {
    let mut m = TaskManager::new(0);
    m.add(task(1, true, 7, 2));
    m.add(task(2, true, 7, 2));
    m.add(task(3, true, 7, 2));
    let a = m.fetch().unwrap();
    assert_eq!(a.tid, 1);
    m.add(a);
    // Queue: 2, 3, 1; the cursor is on task 2.
    let b = m.fetch().unwrap();
    assert_eq!(b.tid, 2);
    m.add(b);
    // Queue: 3, 1, 2; the cursor is on task 3.
    let c = m.fetch().unwrap();
    assert_eq!(c.tid, 3);
    m.add(c);
    // Queue: 1, 2, 3; the cursor is on task 1.
    assert_eq!(m.fetch().unwrap().tid, 1);
}

#[test]
fn round_robin_wraps_after_last() {
    let mut m = TaskManager::new(0);
    m.add(task(1, true, 7, 2));
    m.add(task(2, true, 3, 2));
    m.add(task(3, true, 7, 2));
    // Task 2 has the smallest stride; then the cursor is on task 3.
    assert_eq!(m.fetch().unwrap().tid, 2);
    assert_eq!(m.fetch().unwrap().tid, 3);
    // Task 3 was last: the cursor goes back to the front.
    assert_eq!(m.fetch().unwrap().tid, 1);
}

#[test]
fn max_stride_task_still_runs() {
    let mut m = TaskManager::new(100);
    m.add(task(4, true, usize::MAX, 2));
    let t = m.fetch().unwrap();
    assert_eq!(t.tid, 4);
    assert_eq!(t.stride, usize::MAX);
}
