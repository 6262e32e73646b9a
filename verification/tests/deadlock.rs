use os_core::syscall::deadlock::safe_check;

#[test]
fn banker_classic_safe_state() {
    // Five tasks, three resource kinds; the textbook safe state.
    let available = vec![3usize, 3, 2];
    let allocation = vec![
        vec![0usize, 1, 0],
        vec![2, 0, 0],
        vec![3, 0, 2],
        vec![2, 1, 1],
        vec![0, 0, 2],
    ];
    let need = vec![
        vec![7usize, 4, 3],
        vec![1, 2, 2],
        vec![6, 0, 0],
        vec![0, 1, 1],
        vec![4, 3, 1],
    ];
    let mut finish = vec![false; 5];
    assert!(safe_check(&available, &allocation, &need, &mut finish));
    assert_eq!(finish, vec![true; 5]);
}

#[test]
fn banker_unsafe_state_marks_only_finishable() {
    // Task 0 can finish on its own; tasks 1 and 2 each need what the other
    // holds.
    let available = vec![1usize, 0];
    let allocation = vec![vec![0usize, 0], vec![1, 0], vec![0, 1]];
    let need = vec![vec![1usize, 0], vec![0, 1], vec![2, 0]];
    let mut finish = vec![false; 3];
    assert!(!safe_check(&available, &allocation, &need, &mut finish));
    assert_eq!(finish, vec![true, false, false]);
}

#[test]
fn banker_finished_tasks_take_no_part() {
    // Task 1 already left: its need does not count, nor does what it holds.
    let available = vec![0usize];
    let allocation = vec![vec![0usize], vec![5]];
    let need = vec![vec![0usize], vec![9]];
    let mut finish = vec![false, true];
    assert!(safe_check(&available, &allocation, &need, &mut finish));
    assert_eq!(finish, vec![true, true]);

    // Its holdings are not handed back either.
    let available = vec![0usize];
    let allocation = vec![vec![0usize], vec![5]];
    let need = vec![vec![1usize], vec![0]];
    let mut finish = vec![false, true];
    assert!(!safe_check(&available, &allocation, &need, &mut finish));
    assert_eq!(finish, vec![false, true]);
}

#[test]
fn banker_no_tasks_is_safe() {
    let available = vec![1usize, 2];
    let allocation: Vec<Vec<usize>> = Vec::new();
    let need: Vec<Vec<usize>> = Vec::new();
    let mut finish: Vec<bool> = Vec::new();
    assert!(safe_check(&available, &allocation, &need, &mut finish));
}

#[test]
fn banker_order_matters_but_is_found() {
    // Only the order 2, 1, 0 works.
    let available = vec![1usize];
    let allocation = vec![vec![1usize], vec![1], vec![1]];
    let need = vec![vec![3usize], vec![2], vec![1]];
    let mut finish = vec![false; 3];
    assert!(safe_check(&available, &allocation, &need, &mut finish));
    assert_eq!(finish, vec![true; 3]);
}
