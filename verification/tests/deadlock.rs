use os::deadlock::reject_deadlock;
use os::sync::SyncVar;

fn var(total: usize, allocated: Vec<usize>, requests: Vec<usize>) -> Option<SyncVar> {
    Some(SyncVar { total, allocated, requests })
}

#[test]
fn free_mutex_is_granted() {
    let list = vec![var(1, vec![], vec![])];
    assert!(!reject_deadlock(&list, 0, 1));
}

#[test]
fn busy_mutex_without_cycle_is_granted() {
    // thread 2 holds the mutex and waits for nothing: thread 1 can wait.
    let list = vec![var(1, vec![2], vec![])];
    assert!(!reject_deadlock(&list, 0, 1));
}

#[test]
fn crossed_locks_are_rejected() {
    // thread 1 holds mutex 0, thread 2 holds mutex 1 and waits for mutex 0;
    // thread 1 now asks for mutex 1.
    let list = vec![var(1, vec![1], vec![2]), var(1, vec![2], vec![])];
    assert!(reject_deadlock(&list, 1, 1));
}

#[test]
fn crossed_locks_without_the_other_wait_are_granted() {
    let list = vec![var(1, vec![1], vec![]), var(1, vec![2], vec![])];
    assert!(!reject_deadlock(&list, 1, 1));
}

#[test]
fn relocking_a_held_mutex_is_rejected() {
    let list = vec![var(1, vec![3], vec![])];
    assert!(reject_deadlock(&list, 0, 3));
}

#[test]
fn semaphore_with_spare_unit_is_granted() {
    let list = vec![var(2, vec![1], vec![])];
    assert!(!reject_deadlock(&list, 0, 2));
}

#[test]
fn freed_slots_are_skipped() {
    let list = vec![None, var(1, vec![], vec![4]), None];
    // thread 4 waits for slot 1 which nobody holds; thread 5 asks too.
    assert!(!reject_deadlock(&list, 1, 5));
}

#[test]
fn philosophers_in_a_ring_are_rejected() {
    // three semaphores of one unit, thread i holds i and waits for i + 1,
    // except the last, which asks now.
    let list = vec![
        var(1, vec![0], vec![2]),
        var(1, vec![1], vec![0]),
        var(1, vec![2], vec![1]),
    ];
    assert!(reject_deadlock(&list, 0, 2));
    // when thread 1 waits for nothing the ring is not closed
    let list = vec![var(1, vec![0], vec![]), var(1, vec![1], vec![0]), var(1, vec![2], vec![])];
    assert!(!reject_deadlock(&list, 0, 2));
}

#[test]
fn order_of_threads_does_not_matter() {
    // thread 9 can only finish after thread 8 gives back its unit.
    let list = vec![var(1, vec![8], vec![9]), var(1, vec![], vec![])];
    assert!(!reject_deadlock(&list, 1, 8));
}

#[test]
fn totals_beyond_isize_count_as_negative() {
    // the check reads a total as a signed machine integer
    let list = vec![var(usize::MAX, vec![], vec![])];
    assert!(reject_deadlock(&list, 0, 1));
    let list = vec![var(isize::MAX as usize, vec![], vec![])];
    assert!(!reject_deadlock(&list, 0, 1));
}

#[test]
fn reordered_holders_and_waiters_give_the_same_answer() {
    let a = vec![var(2, vec![1, 2], vec![3, 1]), var(1, vec![3], vec![])];
    let b = vec![var(2, vec![2, 1], vec![1, 3]), var(1, vec![3], vec![])];
    assert_eq!(reject_deadlock(&a, 1, 2), reject_deadlock(&b, 1, 2));
    assert_eq!(reject_deadlock(&a, 0, 3), reject_deadlock(&b, 0, 3));
}

#[test]
fn more_units_keep_a_request_safe() {
    let fewer = vec![var(1, vec![1], vec![]), var(1, vec![], vec![])];
    let more = vec![var(2, vec![1], vec![]), var(3, vec![], vec![])];
    assert!(!reject_deadlock(&fewer, 0, 2));
    assert!(!reject_deadlock(&more, 0, 2));
    // with a second unit, re-locking a held slot is safe
    assert!(reject_deadlock(&fewer, 0, 1));
    assert!(!reject_deadlock(&more, 0, 1));
}

#[test]
fn units_beyond_isize_on_an_unneeded_slot_change_nothing() {
    let before = vec![var(1, vec![], vec![]), var(1, vec![], vec![])];
    let after = vec![var(1, vec![], vec![]), var(usize::MAX, vec![], vec![])];
    assert!(!reject_deadlock(&before, 0, 1));
    assert!(!reject_deadlock(&after, 0, 1));
}
