use os::sync::{
    acquired, release, request, sys_condvar_create, sys_condvar_signal, sys_condvar_wait,
    sys_enable_deadlock_detect, sys_mutex_create, sys_mutex_lock, sys_mutex_unlock,
    sys_semaphore_create, sys_semaphore_down, sys_semaphore_up, sys_sleep, SyncState, SyncVar,
    DEADLOCK_REJECTED,
};

fn state() -> SyncState {
    SyncState {
        mutex_list: Vec::new(),
        semaphore_list: Vec::new(),
        condvar_list: Vec::new(),
        enable_deadlock_detect: false,
    }
}

fn parts(v: &Option<SyncVar>) -> (usize, Vec<usize>, Vec<usize>) {
    let v = v.as_ref().unwrap();
    (v.total, v.allocated.clone(), v.requests.clone())
}

#[test]
fn mutex_create_reuses_first_free_slot() {
    let mut s = state();
    assert_eq!(sys_mutex_create(&mut s, true), 0);
    assert_eq!(sys_mutex_create(&mut s, false), 1);
    assert_eq!(sys_mutex_create(&mut s, true), 2);
    s.mutex_list[1] = None;
    assert_eq!(sys_mutex_create(&mut s, true), 1);
    assert_eq!(parts(&s.mutex_list[1]), (1, vec![], vec![]));
    assert_eq!(sys_mutex_create(&mut s, true), 3);
}

#[test]
fn semaphore_create_sets_units() {
    let mut s = state();
    assert_eq!(sys_semaphore_create(&mut s, 5), 0);
    assert_eq!(parts(&s.semaphore_list[0]), (5, vec![], vec![]));
}

#[test]
fn lock_acquire_unlock_cycle() {
    let mut s = state();
    sys_mutex_create(&mut s, true);
    assert_eq!(sys_mutex_lock(&mut s, 0, 7), 0);
    assert_eq!(parts(&s.mutex_list[0]), (1, vec![], vec![7]));
    acquired(&mut s.mutex_list, 0, 7);
    assert_eq!(parts(&s.mutex_list[0]), (1, vec![7], vec![]));
    assert_eq!(sys_mutex_unlock(&mut s, 0, 7), 0);
    assert_eq!(parts(&s.mutex_list[0]), (1, vec![], vec![]));
}

#[test]
fn release_without_holding_adds_a_unit() {
    let mut s = state();
    sys_semaphore_create(&mut s, 0);
    assert_eq!(sys_semaphore_up(&mut s, 0, 3), 0);
    assert_eq!(parts(&s.semaphore_list[0]), (1, vec![], vec![]));
}

#[test]
fn release_removes_first_holding_only() {
    let mut list = vec![Some(SyncVar { total: 3, allocated: vec![4, 5, 4], requests: vec![] })];
    release(&mut list, 0, 4);
    assert_eq!(parts(&list[0]), (3, vec![5, 4], vec![]));
}

#[test]
fn acquired_moves_first_waiting_entry() {
    let mut list = vec![Some(SyncVar { total: 2, allocated: vec![], requests: vec![1, 2, 1] })];
    acquired(&mut list, 0, 1);
    assert_eq!(parts(&list[0]), (2, vec![1], vec![2, 1]));
    request(&mut list, 0, 9);
    assert_eq!(parts(&list[0]), (2, vec![1], vec![2, 1, 9]));
}

#[test]
fn detection_rejects_deadlocking_lock() {
    let mut s = state();
    sys_mutex_create(&mut s, true);
    sys_mutex_create(&mut s, true);
    assert_eq!(sys_enable_deadlock_detect(&mut s, 1), 0);
    assert!(s.enable_deadlock_detect);
    // thread 1 takes mutex 0, thread 2 takes mutex 1
    assert_eq!(sys_mutex_lock(&mut s, 0, 1), 0);
    acquired(&mut s.mutex_list, 0, 1);
    assert_eq!(sys_mutex_lock(&mut s, 1, 2), 0);
    acquired(&mut s.mutex_list, 1, 2);
    // thread 2 waits for mutex 0
    assert_eq!(sys_mutex_lock(&mut s, 0, 2), 0);
    // thread 1 asking for mutex 1 would close the cycle
    assert_eq!(sys_mutex_lock(&mut s, 1, 1), DEADLOCK_REJECTED);
    assert_eq!(DEADLOCK_REJECTED, -0xDEAD);
    assert_eq!(parts(&s.mutex_list[1]), (1, vec![2], vec![]));
}

#[test]
fn without_detection_lock_is_recorded() {
    let mut s = state();
    sys_mutex_create(&mut s, true);
    assert_eq!(sys_mutex_lock(&mut s, 0, 1), 0);
    acquired(&mut s.mutex_list, 0, 1);
    assert_eq!(sys_mutex_lock(&mut s, 0, 1), 0);
    assert_eq!(parts(&s.mutex_list[0]), (1, vec![1], vec![1]));
}

#[test]
fn semaphore_down_with_detection() {
    let mut s = state();
    sys_semaphore_create(&mut s, 1);
    sys_enable_deadlock_detect(&mut s, 1);
    assert_eq!(sys_semaphore_down(&mut s, 0, 1), 0);
    acquired(&mut s.semaphore_list, 0, 1);
    assert_eq!(sys_semaphore_down(&mut s, 0, 1), DEADLOCK_REJECTED);
    assert_eq!(sys_semaphore_down(&mut s, 0, 2), 0);
}

#[test]
fn enable_deadlock_detect_values() {
    let mut s = state();
    assert_eq!(sys_enable_deadlock_detect(&mut s, 1), 0);
    assert!(s.enable_deadlock_detect);
    assert_eq!(sys_enable_deadlock_detect(&mut s, 2), -1);
    assert!(s.enable_deadlock_detect);
    assert_eq!(sys_enable_deadlock_detect(&mut s, 0), 0);
    assert!(!s.enable_deadlock_detect);
}

#[test]
fn condvars_are_created_signalled_and_waited() {
    let mut s = state();
    sys_mutex_create(&mut s, false);
    assert_eq!(sys_condvar_create(&mut s), 0);
    assert_eq!(sys_condvar_create(&mut s), 1);
    s.condvar_list[0] = false;
    assert_eq!(sys_condvar_create(&mut s), 0);
    assert_eq!(sys_condvar_signal(&s, 1), 0);
    assert_eq!(sys_condvar_wait(&s, 0, 0), 0);
}

#[test]
fn sleep_sets_wake_time() {
    let mut expire = 0;
    assert_eq!(sys_sleep(1000, 250, &mut expire), 0);
    assert_eq!(expire, 1250);
}

#[test]
fn lock_without_detection_ignores_huge_totals() {
    let mut s = state();
    s.semaphore_list.push(Some(SyncVar { total: usize::MAX, allocated: vec![1], requests: vec![] }));
    assert_eq!(sys_semaphore_down(&mut s, 0, 2), 0);
    assert_eq!(parts(&s.semaphore_list[0]), (usize::MAX, vec![1], vec![2]));
}

#[test]
fn holders_stay_within_units() {
    let mut s = state();
    sys_semaphore_create(&mut s, 2);
    for tid in [1usize, 2] {
        assert_eq!(sys_semaphore_down(&mut s, 0, tid), 0);
        acquired(&mut s.semaphore_list, 0, tid);
        let (total, allocated, _) = parts(&s.semaphore_list[0]);
        assert!(allocated.len() <= total);
    }
    assert_eq!(sys_semaphore_up(&mut s, 0, 1), 0);
    let (total, allocated, _) = parts(&s.semaphore_list[0]);
    assert_eq!((total, allocated.len()), (2, 1));
}
