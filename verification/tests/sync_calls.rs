use os_core::syscall::sync::{
    ensure_deadlock_state, mutex_lock_acquired, semaphore_down_acquired, sys_condvar_create,
    sys_condvar_signal, sys_condvar_wait, sys_enable_deadlock_detect, sys_mutex_create,
    sys_mutex_lock, sys_mutex_unlock, sys_semaphore_create, sys_semaphore_down,
    sys_semaphore_up, sys_sleep, SyncState, SyncStep, DEADLOCK_ERR,
};

type State = SyncState<&'static str, &'static str, &'static str>;

#[test]
fn sizing_tables_for_threads() {
    let mut st: State = SyncState::new();
    st.semaphore_list.push(Some("s0"));
    st.semaphore_list.push(Some("s1"));
    st.mutex_list.push(Some("m0"));
    st.sem_alloc.push(vec![4]);
    ensure_deadlock_state(&mut st, 3);
    assert_eq!(st.mutex_waiting, vec![None; 3]);
    assert_eq!(st.sem_waiting, vec![None; 3]);
    assert_eq!(st.sem_alloc, vec![vec![4, 0], vec![0, 0], vec![0, 0]]);
    assert_eq!(st.sem_total, vec![0, 0]);
    assert_eq!(st.mutex_owner, vec![None]);
    // A second sizing changes nothing.
    let before = (st.mutex_waiting.clone(), st.sem_alloc.clone(), st.sem_total.clone());
    ensure_deadlock_state(&mut st, 3);
    assert_eq!(before, (st.mutex_waiting.clone(), st.sem_alloc.clone(), st.sem_total.clone()));
    // Fewer threads never shrink the tables.
    ensure_deadlock_state(&mut st, 1);
    assert_eq!(st.mutex_waiting.len(), 3);
}

#[test]
fn mutex_create_reuses_empty_slots() {
    let alive = [true];
    let mut st: State = SyncState::new();
    assert_eq!(sys_mutex_create(&mut st, &alive, "a"), 0);
    assert_eq!(sys_mutex_create(&mut st, &alive, "b"), 1);
    st.mutex_list[0] = None;
    assert_eq!(sys_mutex_create(&mut st, &alive, "c"), 0);
    assert_eq!(st.mutex_list, vec![Some("c"), Some("b")]);
    assert_eq!(st.mutex_owner, vec![None, None]);
}

#[test]
fn mutex_lock_bad_id() {
    let alive = [true];
    let mut st: State = SyncState::new();
    assert_eq!(sys_mutex_lock(&mut st, &alive, 0, 0), SyncStep::Done(-1));
    assert_eq!(sys_mutex_unlock(&mut st, &alive, 0, 3), SyncStep::Done(-1));
}

#[test]
fn mutex_lock_unlock_ownership() {
    let alive = [true, true];
    let mut st: State = SyncState::new();
    let id = sys_mutex_create(&mut st, &alive, "m") as usize;
    assert_eq!(sys_mutex_lock(&mut st, &alive, 0, id), SyncStep::Proceed);
    assert_eq!(mutex_lock_acquired(&mut st, &alive, 0, id), 0);
    assert_eq!(st.mutex_owner[id], Some(0));
    // Another thread's unlock leaves the owner in place.
    assert_eq!(sys_mutex_unlock(&mut st, &alive, 1, id), SyncStep::Proceed);
    assert_eq!(st.mutex_owner[id], Some(0));
    // The owner's unlock clears it.
    assert_eq!(sys_mutex_unlock(&mut st, &alive, 0, id), SyncStep::Proceed);
    assert_eq!(st.mutex_owner[id], None);
}

#[test]
fn mutex_deadlock_is_refused() {
    let alive = [true, true];
    let mut st: State = SyncState::new();
    assert_eq!(sys_enable_deadlock_detect(&mut st, &alive, 1), 0);
    let a = sys_mutex_create(&mut st, &alive, "a") as usize;
    let b = sys_mutex_create(&mut st, &alive, "b") as usize;
    sys_mutex_lock(&mut st, &alive, 0, a);
    mutex_lock_acquired(&mut st, &alive, 0, a);
    sys_mutex_lock(&mut st, &alive, 1, b);
    mutex_lock_acquired(&mut st, &alive, 1, b);
    // Thread 0 waiting for b is safe: thread 1 can finish and release b.
    assert_eq!(sys_mutex_lock(&mut st, &alive, 0, b), SyncStep::Proceed);
    assert_eq!(st.mutex_waiting[0], Some(b));
    // Thread 1 then waiting for a would close the cycle.
    assert_eq!(sys_mutex_lock(&mut st, &alive, 1, a), SyncStep::Done(DEADLOCK_ERR));
    assert_eq!(st.mutex_waiting[1], None);
    assert_eq!(DEADLOCK_ERR, -0xDEAD);
}

#[test]
fn mutex_wait_without_detection_always_proceeds() {
    let alive = [true, true];
    let mut st: State = SyncState::new();
    let a = sys_mutex_create(&mut st, &alive, "a") as usize;
    let b = sys_mutex_create(&mut st, &alive, "b") as usize;
    mutex_lock_acquired(&mut st, &alive, 0, a);
    mutex_lock_acquired(&mut st, &alive, 1, b);
    assert_eq!(sys_mutex_lock(&mut st, &alive, 0, b), SyncStep::Proceed);
    assert_eq!(sys_mutex_lock(&mut st, &alive, 1, a), SyncStep::Proceed);
    assert_eq!(st.mutex_waiting, vec![None, None]);
}

#[test]
fn exited_threads_do_not_block_detection() {
    // Thread 1 holds b but has exited: thread 0 waiting for b is refused,
    // since nobody can release it.
    let alive = [true, false];
    let mut st: State = SyncState::new();
    sys_enable_deadlock_detect(&mut st, &alive, 1);
    let b = sys_mutex_create(&mut st, &alive, "b") as usize;
    mutex_lock_acquired(&mut st, &alive, 1, b);
    assert_eq!(sys_mutex_lock(&mut st, &alive, 0, b), SyncStep::Done(DEADLOCK_ERR));
}

#[test]
fn semaphore_create_and_counts() {
    let alive = [true];
    let mut st: State = SyncState::new();
    assert_eq!(sys_semaphore_create(&mut st, &alive, "s", 3), 0);
    assert_eq!(sys_semaphore_create(&mut st, &alive, "t", 1), 1);
    assert_eq!(st.sem_total, vec![3, 1]);
    st.semaphore_list[0] = None;
    assert_eq!(sys_semaphore_create(&mut st, &alive, "u", 5), 0);
    assert_eq!(st.sem_total, vec![5, 1]);
}

#[test]
fn semaphore_down_up_holdings() {
    let alive = [true];
    let mut st: State = SyncState::new();
    let s = sys_semaphore_create(&mut st, &alive, "s", 2) as usize;
    assert_eq!(sys_semaphore_down(&mut st, &alive, 0, s, 2), SyncStep::Proceed);
    assert_eq!(semaphore_down_acquired(&mut st, &alive, 0, s), 0);
    assert_eq!(st.sem_alloc[0][s], 1);
    assert_eq!(sys_semaphore_up(&mut st, &alive, 0, s), SyncStep::Proceed);
    assert_eq!(st.sem_alloc[0][s], 0);
    // Releasing what is not held records nothing.
    assert_eq!(sys_semaphore_up(&mut st, &alive, 0, s), SyncStep::Proceed);
    assert_eq!(st.sem_alloc[0][s], 0);
    assert_eq!(sys_semaphore_up(&mut st, &alive, 0, 9), SyncStep::Done(-1));
    assert_eq!(sys_semaphore_down(&mut st, &alive, 0, 9, 0), SyncStep::Done(-1));
}

#[test]
fn semaphore_deadlock_is_refused() {
    let alive = [true, true];
    let mut st: State = SyncState::new();
    sys_enable_deadlock_detect(&mut st, &alive, 1);
    let a = sys_semaphore_create(&mut st, &alive, "a", 1) as usize;
    let b = sys_semaphore_create(&mut st, &alive, "b", 1) as usize;
    sys_semaphore_down(&mut st, &alive, 0, a, 1);
    semaphore_down_acquired(&mut st, &alive, 0, a);
    sys_semaphore_down(&mut st, &alive, 1, b, 1);
    semaphore_down_acquired(&mut st, &alive, 1, b);
    assert_eq!(sys_semaphore_down(&mut st, &alive, 0, b, 0), SyncStep::Proceed);
    assert_eq!(st.sem_waiting[0], Some(b));
    assert_eq!(sys_semaphore_down(&mut st, &alive, 1, a, 0), SyncStep::Done(DEADLOCK_ERR));
    assert_eq!(st.sem_waiting[1], None);
    assert!(st.sem_holdings_fit(2));
}

#[test]
fn semaphore_holdings_overflow_is_detected() {
    let mut st: State = SyncState::new();
    st.semaphore_list.push(Some("s"));
    st.sem_alloc = vec![vec![usize::MAX], vec![1]];
    assert!(!st.sem_holdings_fit(2));
    assert!(st.sem_holdings_fit(1));
}

#[test]
fn deadlock_detect_switch() {
    let alive = [true];
    let mut st: State = SyncState::new();
    assert_eq!(sys_enable_deadlock_detect(&mut st, &alive, 2), -1);
    assert!(!st.deadlock_detect_enabled);
    assert!(st.mutex_waiting.is_empty());
    assert_eq!(sys_enable_deadlock_detect(&mut st, &alive, 1), 0);
    assert!(st.deadlock_detect_enabled);
    assert_eq!(st.mutex_waiting.len(), 1);
    assert_eq!(sys_enable_deadlock_detect(&mut st, &alive, 0), 0);
    assert!(!st.deadlock_detect_enabled);
}

#[test]
fn condvar_handles() {
    let alive = [true];
    let mut st: State = SyncState::new();
    assert_eq!(sys_condvar_create(&mut st, "c0"), 0);
    assert_eq!(sys_condvar_create(&mut st, "c1"), 1);
    let m = sys_mutex_create(&mut st, &alive, "m") as usize;
    assert_eq!(*sys_condvar_signal(&st, 1), "c1");
    let (c, mm) = sys_condvar_wait(&st, 0, m);
    assert_eq!((*c, *mm), ("c0", "m"));
}

#[test]
fn sleep_wake_time() {
    assert_eq!(sys_sleep(100, 50), 150);
    assert_eq!(sys_sleep(0, 0), 0);
}
