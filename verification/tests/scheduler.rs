use os_core::task::manager::{stride_order, StrideOrder, StrideTask, TaskManager};

#[test]
fn fetch_from_empty_is_none() {
    let mut m: TaskManager<u32> = TaskManager::new();
    assert_eq!(m.fetch(), None);
}

#[test]
fn fetch_gives_smallest_stride_first() {
    let mut m = TaskManager::new();
    m.add(1u32, 300);
    m.add(2u32, 100);
    m.add(3u32, 200);
    assert_eq!(m.fetch(), Some(2));
    assert_eq!(m.fetch(), Some(3));
    assert_eq!(m.fetch(), Some(1));
    assert_eq!(m.fetch(), None);
}

#[test]
fn add_then_fetch_gives_the_task_back() {
    let mut m = TaskManager::new();
    m.add("init", 7);
    assert_eq!(m.fetch(), Some("init"));
    assert_eq!(m.fetch(), None);
}

#[test]
fn strides_compare_across_wraparound() {
    // A stride just below u64::MAX is behind one that has wrapped past zero.
    let mut m = TaskManager::new();
    m.add(1u32, 3);
    m.add(2u32, u64::MAX - 1);
    assert_eq!(m.fetch(), Some(2));
    assert_eq!(m.fetch(), Some(1));
}

#[test]
fn equal_strides_are_both_fetched() {
    let mut m = TaskManager::new();
    m.add(1u32, 50);
    m.add(2u32, 50);
    let a = m.fetch().unwrap();
    let b = m.fetch().unwrap();
    assert_ne!(a, b);
    assert_eq!(m.fetch(), None);
}

#[test]
fn stride_order_values() {
    let a = StrideTask::new(0u8, 10);
    let b = StrideTask::new(0u8, 20);
    assert_eq!(stride_order(&a, &b), StrideOrder::Greater);
    assert_eq!(stride_order(&b, &a), StrideOrder::Less);
    assert_eq!(stride_order(&a, &a), StrideOrder::Equal);
    let wrapped = StrideTask::new(0u8, 5);
    let high = StrideTask::new(0u8, u64::MAX - 5);
    assert_eq!(stride_order(&high, &wrapped), StrideOrder::Greater);
}
