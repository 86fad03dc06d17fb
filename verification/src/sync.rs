//! Bookkeeping for the mutexes, semaphores and condition variables of a
//! process, and the decisions of the synchronisation system calls.
use vstd::prelude::*;

use crate::deadlock::{
    can_complete,
    counts_fit,
    law_check_judges_recorded_state,
    reject_deadlock,
    slot,
    state_safe,
};

verus! {

/// Bookkeeping kept for one mutex or semaphore: how many units it was
/// created with (raised by releases that had nothing allocated), which
/// threads hold a unit (one entry per unit), and which threads wait for one.
pub struct SyncVar {
    pub total: usize,
    pub allocated: Vec<usize>,
    pub requests: Vec<usize>,
}

/// Slot `v` of `sv` is live and otherwise as in `old`, with `total`,
/// `allocated` and `requests` as given.
pub open spec fn slot_is(
    sv: Seq<Option<SyncVar>>,
    v: int,
    total: int,
    allocated: Seq<usize>,
    requests: Seq<usize>,
) -> bool {
    &&& sv[v] is Some
    &&& (sv[v]->0).total == total
    &&& (sv[v]->0).allocated@ == allocated
    &&& (sv[v]->0).requests@ == requests
}

/// `new` is `old` with only slot `v` possibly changed.
pub open spec fn others_unchanged(new: Seq<Option<SyncVar>>, old: Seq<Option<SyncVar>>, v: int) -> bool {
    &&& new.len() == old.len()
    &&& forall|j: int| 0 <= j < old.len() && j != v ==> #[trigger] new[j] == old[j]
}

/// Index of the first entry of `s` equal to `x`.
fn position(s: &Vec<usize>, x: usize) -> (r: Option<usize>)
    ensures
        match r {
            Some(i) => i < s@.len() && s@[i as int] == x && s@.index_of_first(x) == Some(i as int),
            None => !s@.contains(x) && s@.index_of_first(x) is None,
        },
{
    proof {
        s@.index_of_first_ensures(x);
    }
    let mut i: usize = 0;
    while i < s.len()
        invariant
            i <= s@.len(),
            forall|j: int| 0 <= j < i ==> s@[j] != x,
            match s@.index_of_first(x) {
                Some(index) => {
                    &&& s@.contains(x)
                    &&& 0 <= index < s@.len()
                    &&& s@[index] == x
                    &&& forall|j: int| 0 <= j < index < s@.len() ==> s@[j] != x
                },
                None => !s@.contains(x),
            },
        decreases s@.len() - i,
    {
        if s[i] == x {
            return Some(i);
        }
        i = i + 1;
    }
    None
}

/// Records that thread `tid` waits for a unit of slot `var_id`.
pub fn request(sync_var: &mut Vec<Option<SyncVar>>, var_id: usize, tid: usize)
    requires
        slot(old(sync_var)@, var_id as int),
    ensures
        requested(final(sync_var)@, old(sync_var)@, var_id as int, tid),
{
    let var = sync_var[var_id].as_mut().unwrap();
    var.requests.push(tid);
}

/// Records that thread `tid`, which waited for a unit of slot `var_id`, now
/// holds it: its first waiting entry moves to the holders.
pub fn acquired(sync_var: &mut Vec<Option<SyncVar>>, var_id: usize, tid: usize)
    requires
        slot(old(sync_var)@, var_id as int),
        (old(sync_var)@[var_id as int]->0).requests@.contains(tid),
    ensures
        granted(final(sync_var)@, old(sync_var)@, var_id as int, tid),
{
    let var = sync_var[var_id].as_mut().unwrap();
    let id = position(&var.requests, tid).unwrap();
    var.requests.remove(id);
    var.allocated.push(tid);
}

/// Records that thread `tid` gives back a unit of slot `var_id`: its first
/// holding entry goes, or, when it holds none, the slot gains a unit.
pub fn release(sync_var: &mut Vec<Option<SyncVar>>, var_id: usize, tid: usize)
    requires
        release_ok(old(sync_var)@, var_id as int, tid),
    ensures
        released(final(sync_var)@, old(sync_var)@, var_id as int, tid),
{
    let var = sync_var[var_id].as_mut().unwrap();
    match position(&var.allocated, tid) {
        Some(id) => {
            var.allocated.remove(id);
        },
        None => {
            var.total = var.total + 1;
        },
    }
}

/// What a lock or a down returns when it is refused because granting it could
/// deadlock.
pub const DEADLOCK_REJECTED: isize = -0xDEAD;

/// sleep syscall, up to the wait: the calling thread's timer is set to go
/// off at `now_ms + ms` (given back through `expire_ms`), and the call
/// returns 0 once the thread wakes.
pub fn sys_sleep(now_ms: usize, ms: usize, expire_ms: &mut usize) -> (r: isize)
    requires
        now_ms + ms <= usize::MAX,
    ensures
        r == 0,
        *final(expire_ms) == now_ms + ms,
{
    *expire_ms = now_ms + ms;
    0
}

/// The synchronisation state of a process: its mutexes, semaphores and
/// condition variables (a freed slot holds `None`, or `false` for condition
/// variables, and is reused by the next creation), and whether deadlock
/// detection is on.
pub struct SyncState {
    pub mutex_list: Vec<Option<SyncVar>>,
    pub semaphore_list: Vec<Option<SyncVar>>,
    pub condvar_list: Vec<bool>,
    pub enable_deadlock_detect: bool,
}

/// `id` is the first free slot of `sv`, or its length when none is free.
pub open spec fn is_first_free(sv: Seq<Option<SyncVar>>, id: int) -> bool {
    &&& 0 <= id <= sv.len()
    &&& id < sv.len() ==> sv[id] is None
    &&& forall|j: int| 0 <= j < id ==> #[trigger] sv[j] is Some
}

/// `id` is the first free slot of `cv`, or its length when none is free.
pub open spec fn is_first_free_condvar(cv: Seq<bool>, id: int) -> bool {
    &&& 0 <= id <= cv.len()
    &&& id < cv.len() ==> !cv[id]
    &&& forall|j: int| 0 <= j < id ==> #[trigger] cv[j]
}

/// `new` is `old` with a fresh slot of `total` units created at `id`, the
/// first free slot.
pub open spec fn created(new: Seq<Option<SyncVar>>, old: Seq<Option<SyncVar>>, id: int, total: int) -> bool {
    &&& is_first_free(old, id)
    &&& new.len() == if id < old.len() {
        old.len()
    } else {
        old.len() + 1
    }
    &&& forall|j: int| 0 <= j < old.len() && j != id ==> #[trigger] new[j] == old[j]
    &&& slot_is(new, id, total, Seq::empty(), Seq::empty())
}

/// `new` is `old` with thread `tid` waiting for one more unit of `v`.
pub open spec fn requested(new: Seq<Option<SyncVar>>, old: Seq<Option<SyncVar>>, v: int, tid: usize) -> bool {
    &&& others_unchanged(new, old, v)
    &&& slot_is(
        new,
        v,
        (old[v]->0).total as int,
        (old[v]->0).allocated@,
        (old[v]->0).requests@.push(tid),
    )
}

/// `new` is `old` after thread `tid`, which waited for a unit of `v`, got
/// it: its first waiting entry moved to the holders.
pub open spec fn granted(new: Seq<Option<SyncVar>>, old: Seq<Option<SyncVar>>, v: int, tid: usize) -> bool {
    &&& others_unchanged(new, old, v)
    &&& slot_is(
        new,
        v,
        (old[v]->0).total as int,
        (old[v]->0).allocated@.push(tid),
        (old[v]->0).requests@.remove_value(tid),
    )
}

/// `new` is `old` after thread `tid` gave back a unit of `v`.
pub open spec fn released(new: Seq<Option<SyncVar>>, old: Seq<Option<SyncVar>>, v: int, tid: usize) -> bool {
    let o = old[v]->0;
    &&& others_unchanged(new, old, v)
    &&& if o.allocated@.contains(tid) {
        slot_is(new, v, o.total as int, o.allocated@.remove_value(tid), o.requests@)
    } else {
        slot_is(new, v, o.total + 1, o.allocated@, o.requests@)
    }
}

/// A release of unit `v` by `tid` is defined: the slot is live and, when
/// `tid` holds none, its total can grow.
pub open spec fn release_ok(sv: Seq<Option<SyncVar>>, v: int, tid: usize) -> bool {
    &&& slot(sv, v)
    &&& !(sv[v]->0).allocated@.contains(tid) ==> (sv[v]->0).total < usize::MAX
}

/// Creates the bookkeeping of a new mutex or semaphore of `total` units in
/// the first free slot, or at the end when none is free, and returns its id.
fn install(list: &mut Vec<Option<SyncVar>>, total: usize) -> (id: usize)
    ensures
        created(final(list)@, old(list)@, id as int, total as int),
{
    let mut i: usize = 0;
    while i < list.len()
        invariant
            i <= list@.len(),
            list@ == old(list)@,
            forall|j: int| 0 <= j < i ==> #[trigger] list@[j] is Some,
        decreases list@.len() - i,
    {
        if list[i].is_none() {
            list.set(i, Some(SyncVar { total, allocated: Vec::new(), requests: Vec::new() }));
            return i;
        }
        i = i + 1;
    }
    list.push(Some(SyncVar { total, allocated: Vec::new(), requests: Vec::new() }));
    list.len() - 1
}

/// mutex create syscall: returns the id of the new mutex, the first free slot
/// (or a new one at the end); the caller puts a blocking or a spinning mutex
/// there, as its `blocking` argument says.
pub fn sys_mutex_create(state: &mut SyncState, _blocking: bool) -> (r: isize)
    requires
        old(state).mutex_list@.len() < isize::MAX,
    ensures
        created(final(state).mutex_list@, old(state).mutex_list@, r as int, 1),
        final(state).semaphore_list@ == old(state).semaphore_list@,
        final(state).condvar_list@ == old(state).condvar_list@,
        final(state).enable_deadlock_detect == old(state).enable_deadlock_detect,
{
    let id = install(&mut state.mutex_list, 1);
    id as isize
}

/// mutex lock syscall, up to the wait: refuses with `DEADLOCK_REJECTED`,
/// changing nothing, when detection is on and the wait could deadlock;
/// otherwise records the wait and returns 0, which with detection on leaves
/// the mutexes in a safe state. The caller then waits for the mutex and
/// records the grant with `acquired`.
pub fn sys_mutex_lock(state: &mut SyncState, mutex_id: usize, tid: usize) -> (r: isize)
    requires
        slot(old(state).mutex_list@, mutex_id as int),
        old(state).enable_deadlock_detect ==> counts_fit(old(state).mutex_list@),
    ensures
        final(state).semaphore_list@ == old(state).semaphore_list@,
        final(state).condvar_list@ == old(state).condvar_list@,
        final(state).enable_deadlock_detect == old(state).enable_deadlock_detect,
        old(state).enable_deadlock_detect && !can_complete(
            old(state).mutex_list@,
            mutex_id as int,
            tid,
        ) ==> r == DEADLOCK_REJECTED && final(state).mutex_list@ == old(state).mutex_list@,
        !(old(state).enable_deadlock_detect && !can_complete(
            old(state).mutex_list@,
            mutex_id as int,
            tid,
        )) ==> r == 0 && requested(
            final(state).mutex_list@,
            old(state).mutex_list@,
            mutex_id as int,
            tid,
        ),
        old(state).enable_deadlock_detect && r == 0 ==> state_safe(final(state).mutex_list@),
{
    if state.enable_deadlock_detect && reject_deadlock(&state.mutex_list, mutex_id, tid) {
        return DEADLOCK_REJECTED;
    }
    let ghost before = state.mutex_list@;
    request(&mut state.mutex_list, mutex_id, tid);
    proof {
        law_check_judges_recorded_state(before, state.mutex_list@, mutex_id as int, tid);
    }
    0
}

/// mutex unlock syscall: records that thread `tid` gives the mutex back and
/// returns 0; the caller wakes the next waiter.
pub fn sys_mutex_unlock(state: &mut SyncState, mutex_id: usize, tid: usize) -> (r: isize)
    requires
        release_ok(old(state).mutex_list@, mutex_id as int, tid),
    ensures
        r == 0,
        released(final(state).mutex_list@, old(state).mutex_list@, mutex_id as int, tid),
        final(state).semaphore_list@ == old(state).semaphore_list@,
        final(state).condvar_list@ == old(state).condvar_list@,
        final(state).enable_deadlock_detect == old(state).enable_deadlock_detect,
{
    release(&mut state.mutex_list, mutex_id, tid);
    0
}

/// semaphore create syscall: returns the id of a new semaphore of
/// `res_count` units, the first free slot (or a new one at the end).
pub fn sys_semaphore_create(state: &mut SyncState, res_count: usize) -> (r: isize)
    requires
        old(state).semaphore_list@.len() < isize::MAX,
    ensures
        created(final(state).semaphore_list@, old(state).semaphore_list@, r as int, res_count as int),
        final(state).mutex_list@ == old(state).mutex_list@,
        final(state).condvar_list@ == old(state).condvar_list@,
        final(state).enable_deadlock_detect == old(state).enable_deadlock_detect,
{
    let id = install(&mut state.semaphore_list, res_count);
    id as isize
}

/// semaphore up syscall: records that thread `tid` gives a unit back and
/// returns 0; the caller wakes a waiter.
pub fn sys_semaphore_up(state: &mut SyncState, sem_id: usize, tid: usize) -> (r: isize)
    requires
        release_ok(old(state).semaphore_list@, sem_id as int, tid),
    ensures
        r == 0,
        released(final(state).semaphore_list@, old(state).semaphore_list@, sem_id as int, tid),
        final(state).mutex_list@ == old(state).mutex_list@,
        final(state).condvar_list@ == old(state).condvar_list@,
        final(state).enable_deadlock_detect == old(state).enable_deadlock_detect,
{
    release(&mut state.semaphore_list, sem_id, tid);
    0
}

/// semaphore down syscall, up to the wait: refuses with `DEADLOCK_REJECTED`,
/// changing nothing, when detection is on and the wait could deadlock;
/// otherwise records the wait and returns 0, which with detection on leaves
/// the semaphores in a safe state. The caller then waits for a unit and
/// records the grant with `acquired`.
pub fn sys_semaphore_down(state: &mut SyncState, sem_id: usize, tid: usize) -> (r: isize)
    requires
        slot(old(state).semaphore_list@, sem_id as int),
        old(state).enable_deadlock_detect ==> counts_fit(old(state).semaphore_list@),
    ensures
        final(state).mutex_list@ == old(state).mutex_list@,
        final(state).condvar_list@ == old(state).condvar_list@,
        final(state).enable_deadlock_detect == old(state).enable_deadlock_detect,
        old(state).enable_deadlock_detect && !can_complete(
            old(state).semaphore_list@,
            sem_id as int,
            tid,
        ) ==> r == DEADLOCK_REJECTED && final(state).semaphore_list@ == old(state).semaphore_list@,
        !(old(state).enable_deadlock_detect && !can_complete(
            old(state).semaphore_list@,
            sem_id as int,
            tid,
        )) ==> r == 0 && requested(
            final(state).semaphore_list@,
            old(state).semaphore_list@,
            sem_id as int,
            tid,
        ),
        old(state).enable_deadlock_detect && r == 0 ==> state_safe(final(state).semaphore_list@),
{
    if state.enable_deadlock_detect && reject_deadlock(&state.semaphore_list, sem_id, tid) {
        return DEADLOCK_REJECTED;
    }
    let ghost before = state.semaphore_list@;
    request(&mut state.semaphore_list, sem_id, tid);
    proof {
        law_check_judges_recorded_state(before, state.semaphore_list@, sem_id as int, tid);
    }
    0
}

/// condvar create syscall: returns the id of a new condition variable, the
/// first free slot (or a new one at the end).
pub fn sys_condvar_create(state: &mut SyncState) -> (r: isize)
    requires
        old(state).condvar_list@.len() < isize::MAX,
    ensures
        is_first_free_condvar(old(state).condvar_list@, r as int),
        final(state).condvar_list@ == if (r as int) < old(state).condvar_list@.len() {
            old(state).condvar_list@.update(r as int, true)
        } else {
            old(state).condvar_list@.push(true)
        },
        final(state).mutex_list@ == old(state).mutex_list@,
        final(state).semaphore_list@ == old(state).semaphore_list@,
        final(state).enable_deadlock_detect == old(state).enable_deadlock_detect,
{
    let mut i: usize = 0;
    while i < state.condvar_list.len()
        invariant
            i <= state.condvar_list@.len(),
            state.condvar_list@.len() < isize::MAX,
            state.condvar_list@ == old(state).condvar_list@,
            state.mutex_list@ == old(state).mutex_list@,
            state.semaphore_list@ == old(state).semaphore_list@,
            state.enable_deadlock_detect == old(state).enable_deadlock_detect,
            forall|j: int| 0 <= j < i ==> #[trigger] state.condvar_list@[j],
        decreases state.condvar_list@.len() - i,
    {
        if !state.condvar_list[i] {
            state.condvar_list.set(i, true);
            return i as isize;
        }
        i = i + 1;
    }
    state.condvar_list.push(true);
    (state.condvar_list.len() - 1) as isize
}

/// condvar signal syscall: returns 0; the caller wakes a waiter of the
/// condition variable.
pub fn sys_condvar_signal(state: &SyncState, condvar_id: usize) -> (r: isize)
    requires
        condvar_id < state.condvar_list@.len(),
        state.condvar_list@[condvar_id as int],
    ensures
        r == 0,
{
    0
}

/// condvar wait syscall: returns 0; the caller gives up the mutex, waits on
/// the condition variable and takes the mutex again, none of which changes
/// the bookkeeping.
pub fn sys_condvar_wait(state: &SyncState, condvar_id: usize, mutex_id: usize) -> (r: isize)
    requires
        condvar_id < state.condvar_list@.len(),
        state.condvar_list@[condvar_id as int],
        slot(state.mutex_list@, mutex_id as int),
    ensures
        r == 0,
{
    0
}

/// enable deadlock detection syscall: 1 turns detection on and 0 turns it
/// off, returning 0; any other value changes nothing and returns -1.
pub fn sys_enable_deadlock_detect(state: &mut SyncState, enabled: usize) -> (r: isize)
    ensures
        final(state).mutex_list@ == old(state).mutex_list@,
        final(state).semaphore_list@ == old(state).semaphore_list@,
        final(state).condvar_list@ == old(state).condvar_list@,
        enabled <= 1 ==> r == 0 && final(state).enable_deadlock_detect == (enabled == 1),
        enabled > 1 ==> r == -1 && final(state).enable_deadlock_detect
            == old(state).enable_deadlock_detect,
{
    match enabled {
        0 | 1 => {
            state.enable_deadlock_detect = enabled == 1;
            0
        },
        _ => -1,
    }
}

// ---------------------------------------------------------------------------
// Laws
// ---------------------------------------------------------------------------

/// A thread that waits for a unit of a slot, gets it and gives it back
/// leaves the slot as it found it: the same total, and the same holders and
/// waiters (counted with multiplicity); the other slots are untouched.
pub proof fn law_request_acquire_release(
    s0: Seq<Option<SyncVar>>,
    s1: Seq<Option<SyncVar>>,
    s2: Seq<Option<SyncVar>>,
    s3: Seq<Option<SyncVar>>,
    v: int,
    tid: usize,
)
    requires
        slot(s0, v),
        requested(s1, s0, v, tid),
        granted(s2, s1, v, tid),
        released(s3, s2, v, tid),
    ensures
        s3.len() == s0.len(),
        forall|j: int| 0 <= j < s0.len() && j != v ==> #[trigger] s3[j] == s0[j],
        s3[v] is Some,
        (s3[v]->0).total == (s0[v]->0).total,
        (s3[v]->0).allocated@.to_multiset() == (s0[v]->0).allocated@.to_multiset(),
        (s3[v]->0).requests@.to_multiset() == (s0[v]->0).requests@.to_multiset(),
{
    broadcast use vstd::seq_lib::group_to_multiset_ensures;
    broadcast use vstd::multiset::group_multiset_axioms;

    let r0 = (s0[v]->0).requests@;
    let a0 = (s0[v]->0).allocated@;
    let r1 = r0.push(tid);
    let a2 = a0.push(tid);
    assert(r1[r0.len() as int] == tid);
    r1.index_of_first_ensures(tid);
    let i = r1.index_of_first(tid).unwrap();
    assert(r1.remove_value(tid) == r1.remove(i));
    assert(r1.remove(i).to_multiset() =~= r0.to_multiset());
    assert(a2[a0.len() as int] == tid);
    a2.index_of_first_ensures(tid);
    let k = a2.index_of_first(tid).unwrap();
    assert(a2.remove_value(tid) == a2.remove(k));
    assert(a2.remove(k).to_multiset() =~= a0.to_multiset());
}

/// A lock or down that went through leaves its thread waiting on the slot,
/// so recording the grant afterwards is defined.
pub proof fn law_granting_after_request_is_defined(
    s0: Seq<Option<SyncVar>>,
    s1: Seq<Option<SyncVar>>,
    v: int,
    tid: usize,
)
    requires
        slot(s0, v),
        requested(s1, s0, v, tid),
    ensures
        slot(s1, v),
        (s1[v]->0).requests@.contains(tid),
{
    let r1 = (s1[v]->0).requests@;
    assert(r1[r1.len() - 1] == tid);
}

/// When no thread holds or waits for anything, a request for a unit of a
/// slot that has at least one (and no more than `isize::MAX`) is never
/// refused.
pub proof fn law_idle_request_is_safe(sv: Seq<Option<SyncVar>>, var_id: int, tid: usize)
    requires
        slot(sv, var_id),
        1 <= (sv[var_id]->0).total <= isize::MAX,
        forall|v: int|
            #![trigger sv[v]]
            slot(sv, v) ==> (sv[v]->0).allocated@.len() == 0 && (sv[v]->0).requests@.len() == 0,
    ensures
        can_complete(sv, var_id, tid),
{
    let order = seq![tid];
    assert(crate::deadlock::threads(sv, tid) =~= set![tid]) by {
        assert forall|t: usize| #![auto] crate::deadlock::threads(sv, tid).contains(t) implies t
            == tid by {
            if t != tid {
                let v = choose|v: int|
                    #![trigger sv[v]]
                    slot(sv, v) && (crate::deadlock::req_of(sv, v).contains(t)
                        || crate::deadlock::alloc_of(sv, v).contains(t));
                assert(sv[v] is Some);
            }
        }
    }
    assert(order.to_set() =~= set![tid]) by {
        assert(order[0] == tid);
    }
    assert forall|v: int|
        #![trigger crate::deadlock::avail(sv, v, Set::empty())]
        slot(sv, v) && crate::deadlock::need(sv, var_id, tid, tid, v) > 0 implies crate::deadlock::need(
        sv,
        var_id,
        tid,
        tid,
        v,
    ) <= crate::deadlock::avail(sv, v, Set::empty()) by {
        assert(sv[v] is Some);
        crate::deadlock::lemma_count_in_empty(crate::deadlock::alloc_of(sv, v));
        assert(crate::deadlock::req_of(sv, v).len() == 0);
        assert(crate::deadlock::count(crate::deadlock::req_of(sv, v), tid) == 0);
    }
    assert(order.take(0).to_set() =~= Set::<usize>::empty());
    assert(crate::deadlock::safe_order(sv, var_id, tid, order));
}

/// No live slot has more holders than units.
pub open spec fn holders_within_units(sv: Seq<Option<SyncVar>>) -> bool {
    forall|v: int|
        #![trigger sv[v]]
        slot(sv, v) ==> (sv[v]->0).allocated@.len() <= (sv[v]->0).total
}

/// Holding no more units than a slot has is kept by recording a wait, by a
/// release, and by a grant made while a unit is free.
pub proof fn law_holders_within_units(
    s0: Seq<Option<SyncVar>>,
    s1: Seq<Option<SyncVar>>,
    v: int,
    tid: usize,
)
    requires
        holders_within_units(s0),
        slot(s0, v),
    ensures
        requested(s1, s0, v, tid) ==> holders_within_units(s1),
        released(s1, s0, v, tid) ==> holders_within_units(s1),
        granted(s1, s0, v, tid) && (s0[v]->0).allocated@.len() < (s0[v]->0).total
            ==> holders_within_units(s1),
{
    let a0 = (s0[v]->0).allocated@;
    if requested(s1, s0, v, tid) || released(s1, s0, v, tid) || (granted(s1, s0, v, tid) && a0.len()
        < (s0[v]->0).total) {
        if released(s1, s0, v, tid) && a0.contains(tid) {
            a0.index_of_first_ensures(tid);
            let i = a0.index_of_first(tid).unwrap();
            assert(a0.remove_value(tid) == a0.remove(i));
        }
        assert forall|u: int| #![trigger s1[u]] slot(s1, u) implies (s1[u]->0).allocated@.len()
            <= (s1[u]->0).total by {
            if u != v {
                assert(s1[u] == s0[u]);
            }
        }
    }
}

/// What a release does to its slot: a thread that holds no unit adds one
/// to the total, whoever waits; a holder gives back exactly one of its
/// holdings (its first), the total staying as it was. Waiters and the other
/// slots are never touched.
pub proof fn law_release_effect(
    s0: Seq<Option<SyncVar>>,
    s1: Seq<Option<SyncVar>>,
    v: int,
    tid: usize,
)
    requires
        slot(s0, v),
        released(s1, s0, v, tid),
    ensures
        s1.len() == s0.len(),
        forall|j: int| 0 <= j < s0.len() && j != v ==> #[trigger] s1[j] == s0[j],
        s1[v] is Some,
        (s1[v]->0).requests@ == (s0[v]->0).requests@,
        !(s0[v]->0).allocated@.contains(tid) ==> (s1[v]->0).total == (s0[v]->0).total + 1
            && (s1[v]->0).allocated@ == (s0[v]->0).allocated@,
        (s0[v]->0).allocated@.contains(tid) ==> {
            let a0 = (s0[v]->0).allocated@;
            &&& (s1[v]->0).total == (s0[v]->0).total
            &&& exists|i: int|
                0 <= i < a0.len() && a0[i] == tid && (forall|j: int|
                    0 <= j < i ==> #[trigger] a0[j] != tid) && (s1[v]->0).allocated@ == a0.subrange(
                    0,
                    i,
                ) + a0.subrange(i + 1, a0.len() as int)
        },
{
    let a0 = (s0[v]->0).allocated@;
    if a0.contains(tid) {
        a0.index_of_first_ensures(tid);
        let i = a0.index_of_first(tid).unwrap();
        assert(a0.remove_value(tid) == a0.remove(i));
        assert(0 <= i < a0.len() && a0[i] == tid);
    }
}

/// Two releases by threads that hold no unit of the slot raise its total by
/// two.
pub proof fn law_two_releases_add_two(
    s0: Seq<Option<SyncVar>>,
    s1: Seq<Option<SyncVar>>,
    s2: Seq<Option<SyncVar>>,
    v: int,
    t1: usize,
    t2: usize,
)
    requires
        slot(s0, v),
        released(s1, s0, v, t1),
        released(s2, s1, v, t2),
        !(s0[v]->0).allocated@.contains(t1),
        !(s0[v]->0).allocated@.contains(t2),
    ensures
        s2[v] is Some,
        (s2[v]->0).total == (s0[v]->0).total + 2,
        (s2[v]->0).allocated@ == (s0[v]->0).allocated@,
        (s2[v]->0).requests@ == (s0[v]->0).requests@,
{
    law_release_effect(s0, s1, v, t1);
    law_release_effect(s1, s2, v, t2);
}

/// Recording a wait appends the thread to the slot's waiters and changes
/// nothing else.
pub proof fn law_request_effect(
    s0: Seq<Option<SyncVar>>,
    s1: Seq<Option<SyncVar>>,
    v: int,
    tid: usize,
)
    requires
        slot(s0, v),
        requested(s1, s0, v, tid),
    ensures
        s1.len() == s0.len(),
        forall|j: int| 0 <= j < s0.len() && j != v ==> #[trigger] s1[j] == s0[j],
        s1[v] is Some,
        (s1[v]->0).total == (s0[v]->0).total,
        (s1[v]->0).allocated@ == (s0[v]->0).allocated@,
        (s1[v]->0).requests@.len() == (s0[v]->0).requests@.len() + 1,
        (s1[v]->0).requests@.last() == tid,
        (s1[v]->0).requests@.drop_last() == (s0[v]->0).requests@,
{
    let r0 = (s0[v]->0).requests@;
    assert(r0.push(tid).drop_last() =~= r0);
}

/// Recording a grant moves the thread's first waiting entry to the end of
/// the holders, the total staying as it was.
pub proof fn law_grant_effect(
    s0: Seq<Option<SyncVar>>,
    s1: Seq<Option<SyncVar>>,
    v: int,
    tid: usize,
)
    requires
        slot(s0, v),
        (s0[v]->0).requests@.contains(tid),
        granted(s1, s0, v, tid),
    ensures
        s1.len() == s0.len(),
        forall|j: int| 0 <= j < s0.len() && j != v ==> #[trigger] s1[j] == s0[j],
        s1[v] is Some,
        (s1[v]->0).total == (s0[v]->0).total,
        (s1[v]->0).allocated@ == (s0[v]->0).allocated@.push(tid),
        ({
            let r0 = (s0[v]->0).requests@;
            exists|i: int|
                0 <= i < r0.len() && r0[i] == tid && (forall|j: int|
                    0 <= j < i ==> #[trigger] r0[j] != tid) && (s1[v]->0).requests@ == r0.subrange(
                    0,
                    i,
                ) + r0.subrange(i + 1, r0.len() as int)
        }),
{
    let r0 = (s0[v]->0).requests@;
    r0.index_of_first_ensures(tid);
    let i = r0.index_of_first(tid).unwrap();
    assert(r0.remove_value(tid) == r0.remove(i));
    assert(0 <= i < r0.len() && r0[i] == tid);
}

/// Creation takes the lowest free slot (or a new one at the end when none is
/// free) and gives it the requested units, no holders and no waiters.
pub proof fn law_create_effect(
    s0: Seq<Option<SyncVar>>,
    s1: Seq<Option<SyncVar>>,
    id: int,
    total: int,
)
    requires
        created(s1, s0, id, total),
    ensures
        0 <= id <= s0.len(),
        forall|j: int| 0 <= j < id ==> #[trigger] s0[j] is Some,
        id < s0.len() ==> s0[id] is None && s1.len() == s0.len(),
        id == s0.len() ==> s1.len() == s0.len() + 1,
        forall|j: int| 0 <= j < s0.len() && j != id ==> #[trigger] s1[j] == s0[j],
        s1[id] is Some,
        (s1[id]->0).total == total,
        (s1[id]->0).allocated@.len() == 0,
        (s1[id]->0).requests@.len() == 0,
{
}

} // verus!
