//! Deadlock avoidance for mutexes and semaphores (the banker's safety check).
use vstd::prelude::*;

use crate::sync::{requested, SyncVar};
use crate::vec_map::VecMap;

verus! {

// ---------------------------------------------------------------------------
// Counting
// ---------------------------------------------------------------------------

/// Number of entries of `s` that belong to `f`.
pub open spec fn count_in(s: Seq<usize>, f: Set<usize>) -> nat
    decreases s.len(),
{
    if s.len() == 0 {
        0
    } else {
        count_in(s.drop_last(), f) + if f.contains(s.last()) {
            1nat
        } else {
            0nat
        }
    }
}

/// Number of entries of `s` equal to `t`.
pub open spec fn count(s: Seq<usize>, t: usize) -> nat
    decreases s.len(),
{
    if s.len() == 0 {
        0
    } else {
        count(s.drop_last(), t) + if s.last() == t {
            1nat
        } else {
            0nat
        }
    }
}

pub proof fn lemma_count_in_le_len(s: Seq<usize>, f: Set<usize>)
    ensures
        count_in(s, f) <= s.len(),
    decreases s.len(),
{
    if s.len() > 0 {
        lemma_count_in_le_len(s.drop_last(), f);
    }
}

pub proof fn lemma_count_le_len(s: Seq<usize>, t: usize)
    ensures
        count(s, t) <= s.len(),
    decreases s.len(),
{
    if s.len() > 0 {
        lemma_count_le_len(s.drop_last(), t);
    }
}

pub proof fn lemma_count_in_mono(s: Seq<usize>, f1: Set<usize>, f2: Set<usize>)
    requires
        f1.subset_of(f2),
    ensures
        count_in(s, f1) <= count_in(s, f2),
    decreases s.len(),
{
    if s.len() > 0 {
        lemma_count_in_mono(s.drop_last(), f1, f2);
    }
}

pub proof fn lemma_count_in_insert(s: Seq<usize>, f: Set<usize>, t: usize)
    requires
        !f.contains(t),
    ensures
        count_in(s, f.insert(t)) == count_in(s, f) + count(s, t),
    decreases s.len(),
{
    if s.len() > 0 {
        lemma_count_in_insert(s.drop_last(), f, t);
    }
}

pub proof fn lemma_count_in_empty(s: Seq<usize>)
    ensures
        count_in(s, Set::empty()) == 0,
    decreases s.len(),
{
    if s.len() > 0 {
        lemma_count_in_empty(s.drop_last());
    }
}

pub proof fn lemma_count_pos(s: Seq<usize>, t: usize)
    ensures
        count(s, t) > 0 <==> s.contains(t),
    decreases s.len(),
{
    if s.len() > 0 {
        lemma_count_pos(s.drop_last(), t);
        if s.drop_last().contains(t) {
            let i = choose|i: int| 0 <= i < s.drop_last().len() && s.drop_last()[i] == t;
            assert(s[i] == t);
        }
        if s.contains(t) && s.last() != t {
            let i = choose|i: int| 0 <= i < s.len() && s[i] == t;
            assert(s.drop_last()[i] == t);
        }
    }
}

pub proof fn lemma_count_take_step(s: Seq<usize>, k: int, t: usize)
    requires
        0 <= k < s.len(),
    ensures
        count(s.take(k + 1), t) == count(s.take(k), t) + if s[k] == t {
            1nat
        } else {
            0nat
        },
{
    assert(s.take(k + 1).drop_last() =~= s.take(k));
}

// ---------------------------------------------------------------------------
// The state that the check reads
// ---------------------------------------------------------------------------

/// Slot `v` of the list holds a live mutex or semaphore.
pub open spec fn slot(sv: Seq<Option<SyncVar>>, v: int) -> bool {
    0 <= v < sv.len() && sv[v] is Some
}

/// The units of slot `v` as the check counts them: its total read as a
/// signed machine integer.
pub open spec fn total_of(sv: Seq<Option<SyncVar>>, v: int) -> int {
    ((sv[v]->0).total as isize) as int
}

pub open spec fn alloc_of(sv: Seq<Option<SyncVar>>, v: int) -> Seq<usize> {
    (sv[v]->0).allocated@
}

pub open spec fn req_of(sv: Seq<Option<SyncVar>>, v: int) -> Seq<usize> {
    (sv[v]->0).requests@
}

/// Every count that the check computes fits the machine integers it uses.
pub open spec fn counts_fit(sv: Seq<Option<SyncVar>>) -> bool {
    forall|v: int|
        #![trigger sv[v]]
        slot(sv, v) ==> total_of(sv, v) - alloc_of(sv, v).len() >= isize::MIN && alloc_of(
            sv,
            v,
        ).len() <= isize::MAX && req_of(sv, v).len() < isize::MAX
}

/// How many units of `v` thread `t` still needs, once thread `tid` has asked
/// for one unit of `var_id` on top of the recorded requests.
pub open spec fn need(sv: Seq<Option<SyncVar>>, var_id: int, tid: usize, t: usize, v: int) -> int {
    count(req_of(sv, v), t) + if t == tid && v == var_id {
        1int
    } else {
        0int
    }
}

/// Units of `v` available once every thread of `done` has finished and given
/// back what it holds.
pub open spec fn avail(sv: Seq<Option<SyncVar>>, v: int, done: Set<usize>) -> int {
    total_of(sv, v) - alloc_of(sv, v).len() + count_in(alloc_of(sv, v), done)
}

/// The threads that take part: the asking thread, and every thread that holds
/// or waits for a unit of a live slot.
pub open spec fn threads(sv: Seq<Option<SyncVar>>, tid: usize) -> Set<usize> {
    Set::new(
        |t: usize|
            t == tid || exists|v: int|
                #![trigger sv[v]]
                slot(sv, v) && (req_of(sv, v).contains(t) || alloc_of(sv, v).contains(t)),
    )
}

/// Thread `t` can get all it needs once the threads of `done` have finished.
pub open spec fn ready(
    sv: Seq<Option<SyncVar>>,
    var_id: int,
    tid: usize,
    t: usize,
    done: Set<usize>,
) -> bool {
    forall|v: int|
        #![trigger avail(sv, v, done)]
        slot(sv, v) && need(sv, var_id, tid, t, v) > 0 ==> need(sv, var_id, tid, t, v) <= avail(
            sv,
            v,
            done,
        )
}

/// `order` runs every taking-part thread to completion, one after another,
/// each getting what it needs from what the earlier ones gave back.
pub open spec fn safe_order(
    sv: Seq<Option<SyncVar>>,
    var_id: int,
    tid: usize,
    order: Seq<usize>,
) -> bool {
    &&& order.no_duplicates()
    &&& order.to_set() == threads(sv, tid)
    &&& forall|i: int|
        #![trigger order[i]]
        0 <= i < order.len() ==> ready(sv, var_id, tid, order[i], order.take(i).to_set())
}

/// Granting thread `tid` one more unit of `var_id` leaves a way for every
/// thread to finish.
pub open spec fn can_complete(sv: Seq<Option<SyncVar>>, var_id: int, tid: usize) -> bool {
    exists|order: Seq<usize>| safe_order(sv, var_id, tid, order)
}

// ---------------------------------------------------------------------------
// Safety of a recorded state
// ---------------------------------------------------------------------------

/// The threads that hold or wait for a unit of a live slot.
pub open spec fn state_threads(sv: Seq<Option<SyncVar>>) -> Set<usize> {
    Set::new(
        |t: usize|
            exists|v: int|
                #![trigger sv[v]]
                slot(sv, v) && (req_of(sv, v).contains(t) || alloc_of(sv, v).contains(t)),
    )
}

/// Thread `t` can get every unit it waits for once the threads of `done`
/// have finished.
pub open spec fn state_ready(sv: Seq<Option<SyncVar>>, t: usize, done: Set<usize>) -> bool {
    forall|v: int|
        #![trigger avail(sv, v, done)]
        slot(sv, v) && count(req_of(sv, v), t) > 0 ==> count(req_of(sv, v), t) <= avail(
            sv,
            v,
            done,
        )
}

/// The recorded holds and waits of `sv` leave an order in which every thread
/// finishes.
pub open spec fn state_safe(sv: Seq<Option<SyncVar>>) -> bool {
    exists|order: Seq<usize>|
        {
            &&& order.no_duplicates()
            &&& order.to_set() == state_threads(sv)
            &&& forall|i: int|
                #![trigger order[i]]
                0 <= i < order.len() ==> state_ready(sv, order[i], order.take(i).to_set())
        }
}

/// The check judges exactly the state that recording the request leads to:
/// granting thread `tid` one more unit of `var_id` can complete if and only
/// if the list with that wait recorded is safe.
pub proof fn law_check_judges_recorded_state(
    s0: Seq<Option<SyncVar>>,
    s1: Seq<Option<SyncVar>>,
    var_id: int,
    tid: usize,
)
    requires
        slot(s0, var_id),
        requested(s1, s0, var_id, tid),
    ensures
        can_complete(s0, var_id, tid) == state_safe(s1),
{
    let r0 = req_of(s0, var_id);
    assert(r0.push(tid).drop_last() =~= r0);
    assert(req_of(s1, var_id)[r0.len() as int] == tid);
    assert forall|v: int| #![trigger s1[v]] slot(s1, v) == slot(s0, v) by {
        if 0 <= v < s0.len() && v != var_id {
            assert(s1[v] == s0[v]);
        }
    }
    assert forall|v: int, d: Set<usize>| #![trigger avail(s1, v, d)] slot(s0, v) implies avail(
        s1,
        v,
        d,
    ) == avail(s0, v, d) by {
        if v != var_id {
            assert(s1[v] == s0[v]);
        }
    }
    assert forall|v: int, t: usize| #![trigger count(req_of(s1, v), t)] slot(s0, v) implies count(
        req_of(s1, v),
        t,
    ) == need(s0, var_id, tid, t, v) by {
        if v != var_id {
            assert(s1[v] == s0[v]);
        }
    }
    assert(state_threads(s1) =~= threads(s0, tid)) by {
        assert forall|t: usize| #![auto] state_threads(s1).contains(t) == threads(
            s0,
            tid,
        ).contains(t) by {
            if state_threads(s1).contains(t) {
                let v = choose|v: int|
                    #![trigger s1[v]]
                    slot(s1, v) && (req_of(s1, v).contains(t) || alloc_of(s1, v).contains(t));
                if v != var_id {
                    assert(s1[v] == s0[v]);
                    assert(s0[v] is Some);
                } else if t != tid && req_of(s1, v).contains(t) {
                    let k = choose|k: int| 0 <= k < req_of(s1, v).len() && req_of(s1, v)[k] == t;
                    assert(r0[k] == t);
                    assert(s0[v] is Some);
                }
            }
            if threads(s0, tid).contains(t) {
                if t == tid {
                    assert(s1[var_id] is Some);
                    assert(req_of(s1, var_id).contains(t));
                } else {
                    let v = choose|v: int|
                        #![trigger s0[v]]
                        slot(s0, v) && (req_of(s0, v).contains(t) || alloc_of(s0, v).contains(t));
                    if v != var_id {
                        assert(s1[v] == s0[v]);
                        assert(s1[v] is Some);
                    } else if req_of(s0, v).contains(t) {
                        let k = choose|k: int| 0 <= k < r0.len() && r0[k] == t;
                        assert(req_of(s1, v)[k] == t);
                        assert(s1[v] is Some);
                    }
                }
            }
        }
    }
    assert forall|t: usize, d: Set<usize>| #![trigger state_ready(s1, t, d)] state_ready(s1, t, d)
        == ready(s0, var_id, tid, t, d) by {
        if state_ready(s1, t, d) {
            assert forall|v: int| #![trigger avail(s0, v, d)]
                slot(s0, v) && need(s0, var_id, tid, t, v) > 0 implies need(s0, var_id, tid, t, v)
                <= avail(s0, v, d) by {
                assert(count(req_of(s1, v), t) == need(s0, var_id, tid, t, v));
                assert(avail(s1, v, d) == avail(s0, v, d));
                assert(slot(s1, v));
            }
        }
        if ready(s0, var_id, tid, t, d) {
            assert forall|v: int| #![trigger avail(s1, v, d)]
                slot(s1, v) && count(req_of(s1, v), t) > 0 implies count(req_of(s1, v), t)
                <= avail(s1, v, d) by {
                assert(slot(s0, v));
                assert(count(req_of(s1, v), t) == need(s0, var_id, tid, t, v));
                assert(avail(s1, v, d) == avail(s0, v, d));
            }
        }
    }
    if can_complete(s0, var_id, tid) {
        let order = choose|order: Seq<usize>| safe_order(s0, var_id, tid, order);
        assert forall|i: int| #![trigger order[i]] 0 <= i < order.len() implies state_ready(
            s1,
            order[i],
            order.take(i).to_set(),
        ) by {
            assert(ready(s0, var_id, tid, order[i], order.take(i).to_set()));
        }
    }
    if state_safe(s1) {
        let order = choose|order: Seq<usize>|
            {
                &&& order.no_duplicates()
                &&& order.to_set() == state_threads(s1)
                &&& forall|i: int|
                    #![trigger order[i]]
                    0 <= i < order.len() ==> state_ready(s1, order[i], order.take(i).to_set())
            };
        assert forall|i: int| #![trigger order[i]] 0 <= i < order.len() implies ready(
            s0,
            var_id,
            tid,
            order[i],
            order.take(i).to_set(),
        ) by {
            assert(state_ready(s1, order[i], order.take(i).to_set()));
        }
        assert(safe_order(s0, var_id, tid, order));
    }
}

// ---------------------------------------------------------------------------
// What the decision depends on
// ---------------------------------------------------------------------------

proof fn lemma_count_is_count_in(s: Seq<usize>, t: usize)
    ensures
        count(s, t) == count_in(s, set![t]),
    decreases s.len(),
{
    if s.len() > 0 {
        lemma_count_is_count_in(s.drop_last(), t);
    }
}

proof fn lemma_count_in_remove(s: Seq<usize>, i: int, f: Set<usize>)
    requires
        0 <= i < s.len(),
    ensures
        count_in(s, f) == count_in(s.remove(i), f) + if f.contains(s[i]) {
            1nat
        } else {
            0nat
        },
    decreases s.len(),
{
    if i == s.len() - 1 {
        assert(s.remove(i) =~= s.drop_last());
    } else {
        assert(s.remove(i).drop_last() =~= s.drop_last().remove(i));
        assert(s.remove(i).last() == s.last());
        lemma_count_in_remove(s.drop_last(), i, f);
    }
}

/// `count_in` depends on the entries only as a multiset.
proof fn lemma_count_in_perm(s1: Seq<usize>, s2: Seq<usize>, f: Set<usize>)
    requires
        s1.to_multiset() == s2.to_multiset(),
    ensures
        count_in(s1, f) == count_in(s2, f),
    decreases s1.len(),
{
    broadcast use vstd::seq_lib::group_to_multiset_ensures;
    broadcast use vstd::multiset::group_multiset_axioms;

    if s1.len() == 0 {
        s1.to_multiset_ensures();
        s2.to_multiset_ensures();
        assert(s2.len() == 0);
    } else {
        let x = s1.last();
        let s1p = s1.drop_last();
        assert(s1 =~= s1p.push(x));
        assert(s1.contains(x));
        assert(s2.to_multiset().count(x) > 0);
        assert(s2.contains(x));
        let i = choose|i: int| 0 <= i < s2.len() && s2[i] == x;
        let s2p = s2.remove(i);
        assert(s1p.to_multiset() =~= s1.to_multiset().remove(x));
        assert(s2p.to_multiset() =~= s2.to_multiset().remove(x));
        lemma_count_in_perm(s1p, s2p, f);
        lemma_count_in_remove(s2, i, f);
    }
}

proof fn lemma_multiset_facts(s1: Seq<usize>, s2: Seq<usize>)
    requires
        s1.to_multiset() == s2.to_multiset(),
    ensures
        s1.len() == s2.len(),
        forall|t: usize| #![auto] count(s1, t) == count(s2, t),
        forall|t: usize| #![auto] s1.contains(t) == s2.contains(t),
        forall|f: Set<usize>| #![auto] count_in(s1, f) == count_in(s2, f),
{
    broadcast use vstd::seq_lib::group_to_multiset_ensures;

    s1.to_multiset_ensures();
    s2.to_multiset_ensures();
    assert forall|f: Set<usize>| #![auto] count_in(s1, f) == count_in(s2, f) by {
        lemma_count_in_perm(s1, s2, f);
    }
    assert forall|t: usize| #![auto] count(s1, t) == count(s2, t) by {
        lemma_count_is_count_in(s1, t);
        lemma_count_is_count_in(s2, t);
        lemma_count_in_perm(s1, s2, set![t]);
    }
    assert forall|t: usize| #![auto] s1.contains(t) == s2.contains(t) by {
        lemma_count_pos(s1, t);
        lemma_count_pos(s2, t);
        lemma_count_is_count_in(s1, t);
        lemma_count_is_count_in(s2, t);
        lemma_count_in_perm(s1, s2, set![t]);
    }
}

/// Two lists that agree on threads, needs and available units (for every
/// set of finished threads) agree on whether a request can complete.
proof fn lemma_same_view_same_answer(
    s1: Seq<Option<SyncVar>>,
    s2: Seq<Option<SyncVar>>,
    var_id: int,
    tid: usize,
)
    requires
        threads(s1, tid) == threads(s2, tid),
        forall|t: usize, d: Set<usize>|
            #![auto]
            ready(s1, var_id, tid, t, d) == ready(s2, var_id, tid, t, d),
    ensures
        can_complete(s1, var_id, tid) == can_complete(s2, var_id, tid),
{
    if can_complete(s1, var_id, tid) {
        let order = choose|order: Seq<usize>| safe_order(s1, var_id, tid, order);
        assert forall|i: int| #![trigger order[i]] 0 <= i < order.len() implies ready(
            s2,
            var_id,
            tid,
            order[i],
            order.take(i).to_set(),
        ) by {
            assert(ready(s1, var_id, tid, order[i], order.take(i).to_set()));
        }
        assert(safe_order(s2, var_id, tid, order));
    }
    if can_complete(s2, var_id, tid) {
        let order = choose|order: Seq<usize>| safe_order(s2, var_id, tid, order);
        assert forall|i: int| #![trigger order[i]] 0 <= i < order.len() implies ready(
            s1,
            var_id,
            tid,
            order[i],
            order.take(i).to_set(),
        ) by {
            assert(ready(s2, var_id, tid, order[i], order.take(i).to_set()));
        }
        assert(safe_order(s1, var_id, tid, order));
    }
}

/// The decision depends on the holders and waiters of each slot only as
/// multisets: reordering them (or which finishable thread is tried first)
/// does not change whether a request can complete.
pub proof fn law_order_does_not_matter(
    s1: Seq<Option<SyncVar>>,
    s2: Seq<Option<SyncVar>>,
    var_id: int,
    tid: usize,
)
    requires
        s1.len() == s2.len(),
        forall|v: int| #![trigger s1[v], s2[v]] 0 <= v < s1.len() ==> (s1[v] is Some) == (s2[v] is Some),
        forall|v: int|
            #![trigger s1[v], s2[v]]
            slot(s1, v) ==> (s1[v]->0).total == (s2[v]->0).total && alloc_of(s1, v).to_multiset()
                == alloc_of(s2, v).to_multiset() && req_of(s1, v).to_multiset() == req_of(
                s2,
                v,
            ).to_multiset(),
    ensures
        can_complete(s1, var_id, tid) == can_complete(s2, var_id, tid),
{
    assert forall|v: int| #![trigger s1[v]] slot(s1, v) implies {
        &&& alloc_of(s1, v).len() == alloc_of(s2, v).len()
        &&& forall|t: usize| #![auto] count(req_of(s1, v), t) == count(req_of(s2, v), t)
        &&& forall|t: usize| #![auto] req_of(s1, v).contains(t) == req_of(s2, v).contains(t)
        &&& forall|t: usize| #![auto] alloc_of(s1, v).contains(t) == alloc_of(s2, v).contains(t)
        &&& forall|f: Set<usize>| #![auto] count_in(alloc_of(s1, v), f) == count_in(alloc_of(s2, v), f)
    } by {
        assert(s2[v] is Some);
        lemma_multiset_facts(alloc_of(s1, v), alloc_of(s2, v));
        lemma_multiset_facts(req_of(s1, v), req_of(s2, v));
    }
    assert forall|v: int| #![auto] slot(s1, v) == slot(s2, v) by {
        if 0 <= v < s1.len() {
            assert((s1[v] is Some) == (s2[v] is Some));
        }
    }
    assert(threads(s1, tid) =~= threads(s2, tid)) by {
        assert forall|t: usize| #![auto] threads(s1, tid).contains(t) implies threads(s2, tid).contains(t) by {
            if t != tid {
                let v = choose|v: int| #![trigger s1[v]]
                    slot(s1, v) && (req_of(s1, v).contains(t) || alloc_of(s1, v).contains(t));
                assert(s2[v] is Some);
            }
        }
        assert forall|t: usize| #![auto] threads(s2, tid).contains(t) implies threads(s1, tid).contains(t) by {
            if t != tid {
                let v = choose|v: int| #![trigger s2[v]]
                    slot(s2, v) && (req_of(s2, v).contains(t) || alloc_of(s2, v).contains(t));
                assert(slot(s1, v));
                assert(s1[v] is Some);
            }
        }
    }
    assert forall|t: usize, d: Set<usize>| #![auto] ready(s1, var_id, tid, t, d) == ready(
        s2,
        var_id,
        tid,
        t,
        d,
    ) by {
        assert forall|v: int| #![auto] slot(s1, v) implies need(s1, var_id, tid, t, v) == need(
            s2,
            var_id,
            tid,
            t,
            v,
        ) && avail(s1, v, d) == avail(s2, v, d) by {
            assert(s1[v] is Some);
        }
        if ready(s1, var_id, tid, t, d) {
            assert forall|v: int| #![trigger avail(s2, v, d)]
                slot(s2, v) && need(s2, var_id, tid, t, v) > 0 implies need(s2, var_id, tid, t, v)
                <= avail(s2, v, d) by {
                assert(slot(s1, v));
                assert(avail(s1, v, d) == avail(s2, v, d));
            }
        }
        if ready(s2, var_id, tid, t, d) {
            assert forall|v: int| #![trigger avail(s1, v, d)]
                slot(s1, v) && need(s1, var_id, tid, t, v) > 0 implies need(s1, var_id, tid, t, v)
                <= avail(s1, v, d) by {
                assert(slot(s2, v));
                assert(avail(s1, v, d) == avail(s2, v, d));
            }
        }
    }
    lemma_same_view_same_answer(s1, s2, var_id, tid);
}

proof fn lemma_signed_mono(a: usize, b: usize)
    requires
        a <= b,
        ((a as isize) < 0) == ((b as isize) < 0),
    ensures
        (a as isize) <= (b as isize),
{
    assert((a as isize) <= (b as isize)) by (bit_vector)
        requires
            a <= b,
            ((a as isize) < 0) == ((b as isize) < 0),
    ;
}

/// Adding units to live slots never turns a request that can complete into
/// one that cannot, as long as no total that some taking-part thread needs
/// crosses from the range the check reads as non-negative into the range it
/// reads as negative.
pub proof fn law_more_units_stay_safe(
    s1: Seq<Option<SyncVar>>,
    s2: Seq<Option<SyncVar>>,
    var_id: int,
    tid: usize,
)
    requires
        s1.len() == s2.len(),
        forall|v: int| #![trigger s1[v], s2[v]] 0 <= v < s1.len() ==> (s1[v] is Some) == (s2[v] is Some),
        forall|v: int|
            #![trigger s1[v], s2[v]]
            slot(s1, v) ==> alloc_of(s1, v) == alloc_of(s2, v) && req_of(s1, v) == req_of(s2, v)
                && (s1[v]->0).total <= (s2[v]->0).total && ((((s1[v]->0).total as isize) < 0) == (((
            s2[v]->0).total as isize) < 0) || forall|t: usize|
                threads(s1, tid).contains(t) ==> #[trigger] need(s1, var_id, tid, t, v) == 0),
        can_complete(s1, var_id, tid),
    ensures
        can_complete(s2, var_id, tid),
{
    assert forall|v: int| #![auto] slot(s1, v) == slot(s2, v) by {
        if 0 <= v < s1.len() {
            assert((s1[v] is Some) == (s2[v] is Some));
        }
    }
    assert(threads(s1, tid) =~= threads(s2, tid)) by {
        assert forall|t: usize| #![auto] threads(s1, tid).contains(t) implies threads(s2, tid).contains(t) by {
            if t != tid {
                let v = choose|v: int| #![trigger s1[v]]
                    slot(s1, v) && (req_of(s1, v).contains(t) || alloc_of(s1, v).contains(t));
                assert(s2[v] is Some);
            }
        }
        assert forall|t: usize| #![auto] threads(s2, tid).contains(t) implies threads(s1, tid).contains(t) by {
            if t != tid {
                let v = choose|v: int| #![trigger s2[v]]
                    slot(s2, v) && (req_of(s2, v).contains(t) || alloc_of(s2, v).contains(t));
                assert(slot(s1, v));
                assert(s1[v] is Some);
            }
        }
    }
    let order = choose|order: Seq<usize>| safe_order(s1, var_id, tid, order);
    assert forall|i: int| #![trigger order[i]] 0 <= i < order.len() implies ready(
        s2,
        var_id,
        tid,
        order[i],
        order.take(i).to_set(),
    ) by {
        let d = order.take(i).to_set();
        let t = order[i];
        assert(ready(s1, var_id, tid, t, d));
        assert forall|v: int| #![trigger avail(s2, v, d)]
            slot(s2, v) && need(s2, var_id, tid, t, v) > 0 implies need(s2, var_id, tid, t, v)
            <= avail(s2, v, d) by {
            assert(slot(s1, v));
            assert(s1[v] is Some);
            assert(need(s1, var_id, tid, t, v) == need(s2, var_id, tid, t, v));
            assert(order.to_set().contains(t));
            assert(threads(s1, tid).contains(t));
            lemma_signed_mono((s1[v]->0).total, (s2[v]->0).total);
            assert(avail(s1, v, d) <= avail(s2, v, d));
            assert(need(s1, var_id, tid, t, v) == need(s2, var_id, tid, t, v));
        }
    }
    assert(safe_order(s2, var_id, tid, order));
}

proof fn lemma_count_in_none(s: Seq<usize>, f: Set<usize>)
    requires
        forall|k: int| 0 <= k < s.len() ==> !f.contains(#[trigger] s[k]),
    ensures
        count_in(s, f) == 0,
    decreases s.len(),
{
    if s.len() > 0 {
        assert forall|k: int| 0 <= k < s.drop_last().len() implies !f.contains(
            #[trigger] s.drop_last()[k],
        ) by {
            assert(s.drop_last()[k] == s[k]);
        }
        lemma_count_in_none(s.drop_last(), f);
    }
}

/// A thread that asks for one more unit of a slot whose every unit it
/// already holds itself is refused: no one else can ever give a unit back.
pub proof fn law_self_deadlock_is_refused(sv: Seq<Option<SyncVar>>, var_id: int, tid: usize)
    requires
        slot(sv, var_id),
        forall|k: int|
            0 <= k < (sv[var_id]->0).allocated@.len() ==> #[trigger] (sv[var_id]->0).allocated@[k]
                == tid,
        ((sv[var_id]->0).total as isize) as int == (sv[var_id]->0).allocated@.len(),
    ensures
        !can_complete(sv, var_id, tid),
{
    if can_complete(sv, var_id, tid) {
        let order = choose|order: Seq<usize>| safe_order(sv, var_id, tid, order);
        assert(threads(sv, tid).contains(tid));
        assert(order.to_set().contains(tid));
        let i = choose|i: int| 0 <= i < order.len() && order[i] == tid;
        let done = order.take(i).to_set();
        assert(!done.contains(tid)) by {
            if done.contains(tid) {
                let j = choose|j: int| 0 <= j < order.take(i).len() && order.take(i)[j] == tid;
                assert(order[j] == order[i]);
            }
        }
        assert(ready(sv, var_id, tid, order[i], done));
        lemma_count_in_none(alloc_of(sv, var_id), done);
        assert(need(sv, var_id, tid, tid, var_id) >= 1);
        assert(avail(sv, var_id, done) == 0);
    }
}

// ---------------------------------------------------------------------------
// Why the greedy search decides `can_complete`
// ---------------------------------------------------------------------------

pub proof fn lemma_ready_mono(
    sv: Seq<Option<SyncVar>>,
    var_id: int,
    tid: usize,
    t: usize,
    d1: Set<usize>,
    d2: Set<usize>,
)
    requires
        ready(sv, var_id, tid, t, d1),
        d1.subset_of(d2),
    ensures
        ready(sv, var_id, tid, t, d2),
{
    assert forall|v: int|
        #![trigger avail(sv, v, d2)]
        slot(sv, v) && need(sv, var_id, tid, t, v) > 0 implies need(sv, var_id, tid, t, v)
        <= avail(sv, v, d2) by {
        lemma_count_in_mono(alloc_of(sv, v), d1, d2);
        assert(avail(sv, v, d1) <= avail(sv, v, d2));
    }
}

proof fn lemma_stuck_from(
    sv: Seq<Option<SyncVar>>,
    var_id: int,
    tid: usize,
    order: Seq<usize>,
    done: Set<usize>,
    k: int,
)
    requires
        safe_order(sv, var_id, tid, order),
        0 <= k <= order.len(),
        forall|j: int| 0 <= j < k ==> done.contains(#[trigger] order[j]),
        exists|j: int| k <= j < order.len() && !done.contains(#[trigger] order[j]),
    ensures
        exists|t: usize|
            threads(sv, tid).contains(t) && !done.contains(t) && ready(sv, var_id, tid, t, done),
    decreases order.len() - k,
{
    if done.contains(order[k]) {
        lemma_stuck_from(sv, var_id, tid, order, done, k + 1);
    } else {
        assert(order.take(k).to_set().subset_of(done)) by {
            assert forall|x: usize| order.take(k).to_set().contains(x) implies done.contains(x) by {
                let j = choose|j: int| 0 <= j < order.take(k).len() && order.take(k)[j] == x;
                assert(order[j] == x);
            }
        }
        assert(ready(sv, var_id, tid, order[k], order.take(k).to_set()));
        lemma_ready_mono(sv, var_id, tid, order[k], order.take(k).to_set(), done);
        assert(order.to_set().contains(order[k]));
    }
}

/// When no unfinished taking-part thread can proceed after the threads of
/// `done` finished, and some taking-part thread is unfinished, no safe order
/// exists.
pub proof fn lemma_stuck_means_unsafe(
    sv: Seq<Option<SyncVar>>,
    var_id: int,
    tid: usize,
    done: Set<usize>,
    left: usize,
)
    requires
        threads(sv, tid).contains(left),
        !done.contains(left),
        forall|t: usize|
            threads(sv, tid).contains(t) && !done.contains(t) ==> !ready(sv, var_id, tid, t, done),
    ensures
        !can_complete(sv, var_id, tid),
{
    if can_complete(sv, var_id, tid) {
        let order = choose|order: Seq<usize>| safe_order(sv, var_id, tid, order);
        assert(order.to_set().contains(left));
        let j = choose|j: int| 0 <= j < order.len() && order[j] == left;
        assert(!done.contains(order[j]));
        lemma_stuck_from(sv, var_id, tid, order, done, 0);
    }
}

// ---------------------------------------------------------------------------
// Tallies kept per thread and slot
// ---------------------------------------------------------------------------

/// The per-slot tally of thread `t`, or nothing when `t` has none yet.
pub open spec fn inner_of(m: Map<usize, VecMap<usize>>, t: usize) -> Map<usize, usize> {
    if m.dom().contains(t) {
        m[t]@
    } else {
        Map::empty()
    }
}

/// The tally for slot `v`, zero when absent.
pub open spec fn val_of(m: Map<usize, usize>, v: usize) -> nat {
    if m.dom().contains(v) {
        m[v] as nat
    } else {
        0
    }
}

/// `inner` with `c` more counted for slot `v`.
pub open spec fn tallied(inner: Map<usize, usize>, v: usize, c: nat) -> Map<usize, usize> {
    if c == 0 {
        inner
    } else {
        inner.insert(v, (val_of(inner, v) + c) as usize)
    }
}

pub open spec fn inner_wf(m: Map<usize, VecMap<usize>>) -> bool {
    forall|t: usize| #[trigger] m.dom().contains(t) ==> m[t].wf()
}

/// Counts, for slot `var`, one unit for every entry of `tids` under that
/// thread.
fn tally(map: &mut VecMap<VecMap<usize>>, tids: &Vec<usize>, var: usize)
    requires
        old(map).wf(),
        inner_wf(old(map)@),
        forall|t: usize|
            tids@.contains(t) ==> val_of(inner_of(old(map)@, t), var) + tids@.len() <= usize::MAX,
    ensures
        final(map).wf(),
        inner_wf(final(map)@),
        final(map)@.dom() == old(map)@.dom().union(tids@.to_set()),
        forall|t: usize|
            #[trigger] final(map)@.dom().contains(t) ==> final(map)@[t]@ == tallied(
                inner_of(old(map)@, t),
                var,
                count(tids@, t),
            ),
{
    let ghost m0 = map@;
    let mut k: usize = 0;
    while k < tids.len()
        invariant
            k <= tids@.len(),
            map.wf(),
            inner_wf(map@),
            map@.dom() == m0.dom().union(tids@.take(k as int).to_set()),
            forall|t: usize|
                #[trigger] map@.dom().contains(t) ==> map@[t]@ == tallied(
                    inner_of(m0, t),
                    var,
                    count(tids@.take(k as int), t),
                ),
            forall|t: usize|
                tids@.contains(t) ==> val_of(inner_of(m0, t), var) + tids@.len() <= usize::MAX,
        decreases tids@.len() - k,
    {
        let t0 = tids[k];
        proof {
            assert(tids@.contains(t0));
            lemma_count_le_len(tids@.take(k as int), t0);
            assert forall|t: usize| #![auto]
                count(tids@.take(k as int + 1), t) == count(tids@.take(k as int), t) + if t0
                    == t {
                    1nat
                } else {
                    0nat
                } by {
                lemma_count_take_step(tids@, k as int, t);
            }
            if !map@.dom().contains(t0) {
                assert(!tids@.take(k as int).to_set().contains(t0));
                assert(count(tids@.take(k as int), t0) == 0) by {
                    lemma_count_pos(tids@.take(k as int), t0);
                }
            }
        }
        let ghost prev = map@;
        let inner = map.get_mut_or_insert_default(t0);
        let c = inner.get_mut_or_insert_default(var);
        *c = *c + 1;
        k = k + 1;
        proof {
            assert(tids@.take(k as int).to_set() =~= tids@.take(k as int - 1).to_set().insert(
                t0,
            )) by {
                assert forall|x: usize| #![auto]
                    tids@.take(k as int).to_set().contains(x) == (tids@.take(
                        k as int - 1,
                    ).to_set().contains(x) || x == t0) by {
                    if tids@.take(k as int).to_set().contains(x) {
                        let j = choose|j: int|
                            0 <= j < k && #[trigger] tids@.take(k as int)[j] == x;
                        if j < k - 1 {
                            assert(tids@.take(k as int - 1)[j] == x);
                        }
                    }
                    if tids@.take(k as int - 1).to_set().contains(x) {
                        let j = choose|j: int|
                            0 <= j < k - 1 && #[trigger] tids@.take(k as int - 1)[j] == x;
                        assert(tids@.take(k as int)[j] == x);
                    }
                    if x == t0 {
                        assert(tids@.take(k as int)[k - 1] == x);
                    }
                }
            }
            assert forall|t: usize| #[trigger] map@.dom().contains(t) implies map@[t]@ == tallied(
                inner_of(m0, t),
                var,
                count(tids@.take(k as int), t),
            ) by {
                if t == t0 {
                    assert(map@[t]@ =~= tallied(
                        inner_of(m0, t),
                        var,
                        count(tids@.take(k as int), t),
                    ));
                }
            }
        }
    }
    assert(tids@.take(k as int) =~= tids@);
}

/// Makes sure every thread of `tids` has an entry, empty when new.
fn note_threads(map: &mut VecMap<VecMap<usize>>, tids: &Vec<usize>)
    requires
        old(map).wf(),
        inner_wf(old(map)@),
    ensures
        final(map).wf(),
        inner_wf(final(map)@),
        final(map)@.dom() == old(map)@.dom().union(tids@.to_set()),
        forall|t: usize|
            #[trigger] final(map)@.dom().contains(t) ==> final(map)@[t]@ == inner_of(old(map)@, t),
{
    let ghost m0 = map@;
    let mut k: usize = 0;
    while k < tids.len()
        invariant
            k <= tids@.len(),
            map.wf(),
            inner_wf(map@),
            map@.dom() == m0.dom().union(tids@.take(k as int).to_set()),
            forall|t: usize| #[trigger] map@.dom().contains(t) ==> map@[t]@ == inner_of(m0, t),
        decreases tids@.len() - k,
    {
        let t0 = tids[k];
        proof {
            if !map@.dom().contains(t0) {
                assert(!tids@.take(k as int).to_set().contains(t0));
            }
        }
        map.get_mut_or_insert_default(t0);
        k = k + 1;
        proof {
            assert(tids@.take(k as int).to_set() =~= tids@.take(k as int - 1).to_set().insert(
                t0,
            )) by {
                assert forall|x: usize| #![auto]
                    tids@.take(k as int).to_set().contains(x) == (tids@.take(
                        k as int - 1,
                    ).to_set().contains(x) || x == t0) by {
                    if tids@.take(k as int).to_set().contains(x) {
                        let j = choose|j: int|
                            0 <= j < k && #[trigger] tids@.take(k as int)[j] == x;
                        if j < k - 1 {
                            assert(tids@.take(k as int - 1)[j] == x);
                        }
                    }
                    if tids@.take(k as int - 1).to_set().contains(x) {
                        let j = choose|j: int|
                            0 <= j < k - 1 && #[trigger] tids@.take(k as int - 1)[j] == x;
                        assert(tids@.take(k as int)[j] == x);
                    }
                    if x == t0 {
                        assert(tids@.take(k as int)[k - 1] == x);
                    }
                }
            }
        }
    }
    assert(tids@.take(k as int) =~= tids@);
}

/// Whether every tally of `t_needs` is covered by the available units.
pub open spec fn covered(t_needs: Map<usize, usize>, works: Map<usize, isize>) -> bool {
    forall|v: usize| #[trigger] t_needs.dom().contains(v) ==> t_needs[v] as int <= works[v] as int
}

fn can_finish(t_needs: &VecMap<usize>, works: &VecMap<isize>) -> (r: bool)
    requires
        t_needs.wf(),
        works.wf(),
        forall|v: usize| #[trigger]
            t_needs@.dom().contains(v) ==> works@.dom().contains(v) && t_needs@[v] <= isize::MAX,
    ensures
        r == covered(t_needs@, works@),
{
    let mut k: usize = 0;
    while k < t_needs.items.len()
        invariant
            k <= t_needs.items@.len(),
            t_needs.wf(),
            works.wf(),
            forall|v: usize| #[trigger]
                t_needs@.dom().contains(v) ==> works@.dom().contains(v) && t_needs@[v]
                    <= isize::MAX,
            forall|j: int|
                0 <= j < k ==> t_needs.items@[j].1 as int <= works@[t_needs.items@[j].0] as int,
        decreases t_needs.items@.len() - k,
    {
        let var_id = t_needs.items[k].0;
        let var_need = t_needs.items[k].1;
        proof {
            crate::vec_map::lemma_assoc_map_index(t_needs.items@, k as int);
            assert(t_needs@.dom().contains(var_id));
            assert(works@.dom().contains(var_id));
        }
        let available = *works.get(var_id).unwrap();
        if !(var_need as isize <= available) {
            return false;
        }
        k = k + 1;
    }
    proof {
        assert forall|v: usize| #[trigger] t_needs@.dom().contains(v) implies t_needs@[v] as int
            <= works@[v] as int by {
            let j = choose|j: int|
                0 <= j < t_needs.items@.len() && t_needs.items@[j].0 == v;
            crate::vec_map::lemma_assoc_map_index(t_needs.items@, j);
        }
    }
    true
}

/// Gives back to `works` every unit counted in `held`.
fn release_allocations(works: &mut VecMap<isize>, held: &VecMap<usize>)
    requires
        old(works).wf(),
        held.wf(),
        forall|v: usize| #[trigger]
            held@.dom().contains(v) ==> old(works)@.dom().contains(v) && old(works)@[v] + held@[v]
                <= isize::MAX && held@[v] <= isize::MAX,
    ensures
        final(works).wf(),
        final(works)@.dom() == old(works)@.dom(),
        forall|v: usize| #[trigger]
            final(works)@.dom().contains(v) ==> final(works)@[v] == old(works)@[v] + val_of(
                held@,
                v,
            ),
{
    let ghost w0 = works@;
    let mut k: usize = 0;
    while k < held.items.len()
        invariant
            k <= held.items@.len(),
            held.wf(),
            works.wf(),
            works@.dom() == w0.dom(),
            forall|v: usize| #[trigger]
                held@.dom().contains(v) ==> w0.dom().contains(v) && w0[v] + held@[v]
                    <= isize::MAX && held@[v] <= isize::MAX,
            forall|v: usize| #[trigger]
                works@.dom().contains(v) ==> works@[v] == w0[v] + if crate::vec_map::has_key(
                    held.items@.take(k as int),
                    v,
                ) {
                    held@[v] as int
                } else {
                    0int
                },
        decreases held.items@.len() - k,
    {
        let var_id = held.items[k].0;
        let var_allocated = held.items[k].1;
        proof {
            crate::vec_map::lemma_assoc_map_index(held.items@, k as int);
            assert(held@.dom().contains(var_id));
            assert(works@.dom().contains(var_id));
            assert(!crate::vec_map::has_key(held.items@.take(k as int), var_id)) by {
                if crate::vec_map::has_key(held.items@.take(k as int), var_id) {
                    let j = choose|j: int|
                        0 <= j < k && (#[trigger] held.items@.take(k as int)[j]).0 == var_id;
                    assert(held.items@[j].0 == var_id);
                }
            }
            assert forall|v: usize| #![auto]
                crate::vec_map::has_key(held.items@.take(k as int + 1), v) == (
                crate::vec_map::has_key(held.items@.take(k as int), v) || v == var_id) by {
                if crate::vec_map::has_key(held.items@.take(k as int + 1), v) {
                    let j = choose|j: int|
                        0 <= j < k + 1 && (#[trigger] held.items@.take(k as int + 1)[j]).0 == v;
                    if j < k {
                        assert(held.items@.take(k as int)[j].0 == v);
                    }
                }
                if crate::vec_map::has_key(held.items@.take(k as int), v) {
                    let j = choose|j: int|
                        0 <= j < k && (#[trigger] held.items@.take(k as int)[j]).0 == v;
                    assert(held.items@.take(k as int + 1)[j].0 == v);
                }
                if v == var_id {
                    assert(held.items@.take(k as int + 1)[k as int].0 == v);
                }
            }
        }
        let ghost before = works@;
        assert(works@[var_id] == w0[var_id]);
        let w = works.get_mut(var_id);
        *w = *w + var_allocated as isize;
        k = k + 1;
        assert(works@ == before.insert(var_id, (w0[var_id] + held@[var_id]) as isize));
    }
    proof {
        assert(held.items@.take(k as int) =~= held.items@);
        assert forall|v: usize| #[trigger] works@.dom().contains(v) implies works@[v] == w0[v]
            + val_of(held@, v) by {
            if crate::vec_map::has_key(held.items@, v) {
            }
        }
    }
}

// ---------------------------------------------------------------------------
// The tallies after the first `i` slots were read
// ---------------------------------------------------------------------------

pub open spec fn need_upto(
    sv: Seq<Option<SyncVar>>,
    var_id: int,
    tid: usize,
    t: usize,
    v: int,
    i: int,
) -> int {
    (if v < i {
        count(req_of(sv, v), t) as int
    } else {
        0int
    }) + if t == tid && v == var_id {
        1int
    } else {
        0int
    }
}

pub open spec fn need_map_upto(
    sv: Seq<Option<SyncVar>>,
    var_id: int,
    tid: usize,
    t: usize,
    i: int,
) -> Map<usize, usize> {
    Map::new(
        |v: usize| slot(sv, v as int) && need_upto(sv, var_id, tid, t, v as int, i) > 0,
        |v: usize| need_upto(sv, var_id, tid, t, v as int, i) as usize,
    )
}

pub open spec fn held_map_upto(sv: Seq<Option<SyncVar>>, t: usize, i: int) -> Map<usize, usize> {
    Map::new(
        |v: usize| (v as int) < i && slot(sv, v as int) && alloc_of(sv, v as int).contains(t),
        |v: usize| count(alloc_of(sv, v as int), t) as usize,
    )
}

pub open spec fn threads_upto(sv: Seq<Option<SyncVar>>, tid: usize, i: int) -> Set<usize> {
    Set::new(
        |t: usize|
            t == tid || exists|v: int|
                #![trigger sv[v]]
                v < i && slot(sv, v) && (req_of(sv, v).contains(t) || alloc_of(sv, v).contains(t)),
    )
}

pub open spec fn holders_upto(sv: Seq<Option<SyncVar>>, i: int) -> Set<usize> {
    Set::new(
        |t: usize|
            exists|v: int| #![trigger sv[v]] v < i && slot(sv, v) && alloc_of(sv, v).contains(t),
    )
}

pub open spec fn works_upto(sv: Seq<Option<SyncVar>>, i: int) -> Map<usize, isize> {
    Map::new(
        |v: usize| (v as int) < i && slot(sv, v as int),
        |v: usize| (total_of(sv, v as int) - alloc_of(sv, v as int).len()) as isize,
    )
}

proof fn lemma_need_map_fresh(
    sv: Seq<Option<SyncVar>>,
    var_id: int,
    tid: usize,
    t: usize,
    i: int,
)
    requires
        !threads_upto(sv, tid, i).contains(t),
    ensures
        need_map_upto(sv, var_id, tid, t, i) == Map::<usize, usize>::empty(),
{
    assert forall|v: usize| !#[trigger] need_map_upto(sv, var_id, tid, t, i).dom().contains(v) by {
        if (v as int) < i && slot(sv, v as int) {
            assert(!req_of(sv, v as int).contains(t));
            lemma_count_pos(req_of(sv, v as int), t);
        }
    }
    assert(need_map_upto(sv, var_id, tid, t, i) =~= Map::<usize, usize>::empty());
}

proof fn lemma_need_map_step(
    sv: Seq<Option<SyncVar>>,
    var_id: int,
    tid: usize,
    t: usize,
    i: int,
)
    requires
        0 <= i < sv.len(),
        i <= usize::MAX,
    ensures
        slot(sv, i) ==> need_map_upto(sv, var_id, tid, t, i + 1) == tallied(
            need_map_upto(sv, var_id, tid, t, i),
            i as usize,
            count(req_of(sv, i), t),
        ),
        !slot(sv, i) ==> need_map_upto(sv, var_id, tid, t, i + 1) == need_map_upto(
            sv,
            var_id,
            tid,
            t,
            i,
        ),
{
    let m0 = need_map_upto(sv, var_id, tid, t, i);
    let m1 = need_map_upto(sv, var_id, tid, t, i + 1);
    if slot(sv, i) {
        let c = count(req_of(sv, i), t);
        assert(m1 =~= tallied(m0, i as usize, c));
    } else {
        assert(m1 =~= m0);
    }
}

proof fn lemma_held_map_fresh(sv: Seq<Option<SyncVar>>, t: usize, i: int)
    requires
        !holders_upto(sv, i).contains(t),
    ensures
        held_map_upto(sv, t, i) == Map::<usize, usize>::empty(),
{
    assert(held_map_upto(sv, t, i) =~= Map::<usize, usize>::empty());
}

proof fn lemma_held_map_step(sv: Seq<Option<SyncVar>>, t: usize, i: int)
    requires
        0 <= i < sv.len(),
        i <= usize::MAX,
    ensures
        slot(sv, i) ==> held_map_upto(sv, t, i + 1) == tallied(
            held_map_upto(sv, t, i),
            i as usize,
            count(alloc_of(sv, i), t),
        ),
        !slot(sv, i) ==> held_map_upto(sv, t, i + 1) == held_map_upto(sv, t, i),
{
    let m0 = held_map_upto(sv, t, i);
    let m1 = held_map_upto(sv, t, i + 1);
    lemma_count_pos(alloc_of(sv, i), t);
    if slot(sv, i) {
        let c = count(alloc_of(sv, i), t);
        assert(m1 =~= tallied(m0, i as usize, c));
    } else {
        assert(m1 =~= m0);
    }
}

proof fn lemma_threads_step(sv: Seq<Option<SyncVar>>, tid: usize, i: int)
    requires
        0 <= i < sv.len(),
    ensures
        slot(sv, i) ==> threads_upto(sv, tid, i + 1) == threads_upto(sv, tid, i).union(
            req_of(sv, i).to_set(),
        ).union(alloc_of(sv, i).to_set()),
        !slot(sv, i) ==> threads_upto(sv, tid, i + 1) == threads_upto(sv, tid, i),
        slot(sv, i) ==> holders_upto(sv, i + 1) == holders_upto(sv, i).union(
            alloc_of(sv, i).to_set(),
        ),
        !slot(sv, i) ==> holders_upto(sv, i + 1) == holders_upto(sv, i),
{
    let a = threads_upto(sv, tid, i + 1);
    let b = threads_upto(sv, tid, i);
    if slot(sv, i) {
        assert forall|t: usize| #![auto] a.contains(t) == (b.contains(t) || req_of(
            sv,
            i,
        ).to_set().contains(t) || alloc_of(sv, i).to_set().contains(t)) by {
            if a.contains(t) && t != tid {
                let v = choose|v: int|
                    #![trigger sv[v]]
                    v < i + 1 && slot(sv, v) && (req_of(sv, v).contains(t) || alloc_of(
                        sv,
                        v,
                    ).contains(t));
                if v < i {
                    assert(b.contains(t));
                }
            }
            if req_of(sv, i).to_set().contains(t) || alloc_of(sv, i).to_set().contains(t) {
                assert(sv[i] is Some);
            }
        }
        assert(a =~= b.union(req_of(sv, i).to_set()).union(alloc_of(sv, i).to_set()));
        assert forall|t: usize| #![auto] holders_upto(sv, i + 1).contains(t) == (holders_upto(
            sv,
            i,
        ).contains(t) || alloc_of(sv, i).to_set().contains(t)) by {
            if holders_upto(sv, i + 1).contains(t) {
                let v = choose|v: int|
                    #![trigger sv[v]]
                    v < i + 1 && slot(sv, v) && alloc_of(sv, v).contains(t);
                if v < i {
                    assert(holders_upto(sv, i).contains(t));
                }
            }
            if alloc_of(sv, i).to_set().contains(t) {
                assert(sv[i] is Some);
            }
        }
        assert(holders_upto(sv, i + 1) =~= holders_upto(sv, i).union(alloc_of(sv, i).to_set()));
    } else {
        assert forall|t: usize| #![auto] a.contains(t) == b.contains(t) by {
            if a.contains(t) && t != tid {
                let v = choose|v: int|
                    #![trigger sv[v]]
                    v < i + 1 && slot(sv, v) && (req_of(sv, v).contains(t) || alloc_of(
                        sv,
                        v,
                    ).contains(t));
                assert(v != i);
            }
        }
        assert(a =~= b);
        assert forall|t: usize| #![auto] holders_upto(sv, i + 1).contains(t) == holders_upto(
            sv,
            i,
        ).contains(t) by {
            if holders_upto(sv, i + 1).contains(t) {
                let v = choose|v: int|
                    #![trigger sv[v]]
                    v < i + 1 && slot(sv, v) && alloc_of(sv, v).contains(t);
                assert(v != i);
            }
        }
        assert(holders_upto(sv, i + 1) =~= holders_upto(sv, i));
    }
}

fn find_ready(needs: &VecMap<VecMap<usize>>, works: &VecMap<isize>) -> (r: Option<usize>)
    requires
        needs.wf(),
        inner_wf(needs@),
        works.wf(),
        forall|t: usize, v: usize| #[trigger]
            needs@.dom().contains(t) && #[trigger] needs@[t]@.dom().contains(v)
                ==> works@.dom().contains(v) && needs@[t]@[v] <= isize::MAX,
    ensures
        match r {
            Some(t) => needs@.dom().contains(t) && covered(needs@[t]@, works@),
            None => forall|t: usize| #[trigger]
                needs@.dom().contains(t) ==> !covered(needs@[t]@, works@),
        },
{
    let mut j: usize = 0;
    while j < needs.items.len()
        invariant
            j <= needs.items@.len(),
            needs.wf(),
            inner_wf(needs@),
            works.wf(),
            forall|t: usize, v: usize| #[trigger]
                needs@.dom().contains(t) && #[trigger] needs@[t]@.dom().contains(v)
                    ==> works@.dom().contains(v) && needs@[t]@[v] <= isize::MAX,
            forall|k: int|
                0 <= k < j ==> !covered(#[trigger] needs@[needs.items@[k].0]@, works@),
        decreases needs.items@.len() - j,
    {
        proof {
            crate::vec_map::lemma_assoc_map_index(needs.items@, j as int);
        }
        if can_finish(&needs.items[j].1, &works) {
            return Some(needs.items[j].0);
        }
        j = j + 1;
    }
    proof {
        assert forall|t: usize| #[trigger] needs@.dom().contains(t) implies !covered(
            needs@[t]@,
            works@,
        ) by {
            let k = choose|k: int| 0 <= k < needs.items@.len() && needs.items@[k].0 == t;
            assert(!covered(needs@[needs.items@[k].0]@, works@));
        }
    }
    None
}

proof fn lemma_covered_iff_ready(
    sv: Seq<Option<SyncVar>>,
    var_id: int,
    tid: usize,
    t: usize,
    done: Set<usize>,
    works: Map<usize, isize>,
)
    requires
        counts_fit(sv),
        sv.len() <= usize::MAX,
        forall|v: usize| #[trigger] works.dom().contains(v) <==> slot(sv, v as int),
        forall|v: usize| #[trigger]
            works.dom().contains(v) ==> works[v] as int == avail(sv, v as int, done),
    ensures
        covered(need_map_upto(sv, var_id, tid, t, sv.len() as int), works) == ready(
            sv,
            var_id,
            tid,
            t,
            done,
        ),
{
    let m = need_map_upto(sv, var_id, tid, t, sv.len() as int);
    if covered(m, works) {
        assert forall|v: int| #![trigger avail(sv, v, done)]
            slot(sv, v) && need(sv, var_id, tid, t, v) > 0 implies need(sv, var_id, tid, t, v)
            <= avail(sv, v, done) by {
            let u = v as usize;
            assert(sv[v] == sv[u as int]);
            lemma_count_le_len(req_of(sv, v), t);
            assert(m.dom().contains(u));
            assert(works.dom().contains(u));
        }
    }
    if ready(sv, var_id, tid, t, done) {
        assert forall|u: usize| #[trigger] m.dom().contains(u) implies m[u] as int <= works[u] as int by {
            let v = u as int;
            lemma_count_le_len(req_of(sv, v), t);
            assert(works.dom().contains(u));
            assert(need(sv, var_id, tid, t, v) <= avail(sv, v, done));
        }
    }
}

/// Decides whether letting thread `tid` wait for one more unit of slot
/// `var_id` could deadlock: `true` when, with that request added, the threads
/// that hold or wait for units of the live slots can no longer all finish in
/// some order (the banker's safety check).
pub fn reject_deadlock(sync_var: &Vec<Option<SyncVar>>, var_id: usize, tid: usize) -> (r: bool)
    requires
        slot(sync_var@, var_id as int),
        counts_fit(sync_var@),
    ensures
        r == !can_complete(sync_var@, var_id as int, tid),
{
    let ghost sv = sync_var@;
    let ghost vid = var_id as int;
    // var_id -> available
    let mut works: VecMap<isize> = VecMap::default();
    // tid -> var -> request
    let mut needs: VecMap<VecMap<usize>> = VecMap::default();
    // tid -> var -> allocated
    let mut allocation: VecMap<VecMap<usize>> = VecMap::default();
    *needs.get_mut_or_insert_default(tid).get_mut_or_insert_default(var_id) = 1;
    proof {
        assert(works@ =~= works_upto(sv, 0));
        assert(needs@.dom() =~= threads_upto(sv, tid, 0));
        assert(needs@[tid]@ =~= need_map_upto(sv, vid, tid, tid, 0));
        assert(allocation@.dom() =~= holders_upto(sv, 0));
    }
    let mut i: usize = 0;
    while i < sync_var.len()
        invariant
            sv == sync_var@,
            vid == var_id as int,
            slot(sv, vid),
            counts_fit(sv),
            i <= sv.len(),
            works.wf(),
            works@ == works_upto(sv, i as int),
            needs.wf(),
            inner_wf(needs@),
            needs@.dom() == threads_upto(sv, tid, i as int),
            forall|t: usize| #[trigger]
                needs@.dom().contains(t) ==> needs@[t]@ == need_map_upto(sv, vid, tid, t, i as int),
            allocation.wf(),
            inner_wf(allocation@),
            allocation@.dom() == holders_upto(sv, i as int),
            forall|t: usize| #[trigger]
                allocation@.dom().contains(t) ==> allocation@[t]@ == held_map_upto(sv, t, i as int),
        decreases sv.len() - i,
    {
        proof {
            lemma_threads_step(sv, tid, i as int);
            assert forall|t: usize| #![auto]
                need_map_upto(sv, vid, tid, t, i as int + 1) == (if slot(sv, i as int) {
                    tallied(need_map_upto(sv, vid, tid, t, i as int), i, count(req_of(sv, i as int), t))
                } else {
                    need_map_upto(sv, vid, tid, t, i as int)
                }) && held_map_upto(sv, t, i as int + 1) == (if slot(sv, i as int) {
                    tallied(held_map_upto(sv, t, i as int), i, count(alloc_of(sv, i as int), t))
                } else {
                    held_map_upto(sv, t, i as int)
                }) by {
                lemma_need_map_step(sv, vid, tid, t, i as int);
                lemma_held_map_step(sv, t, i as int);
            }
        }
        match &sync_var[i] {
            None => {
                proof {
                    assert(works_upto(sv, i as int + 1) =~= works_upto(sv, i as int));
                }
            },
            Some(var) => {
                let ghost n0 = needs@;
                let ghost a0 = allocation@;
                proof {
                    assert(sv[i as int] is Some);
                    assert(works_upto(sv, i as int + 1) =~= works_upto(sv, i as int).insert(
                        i,
                        ((var.total as isize) as int - var.allocated@.len()) as isize,
                    ));
                    assert forall|t: usize| var.requests@.contains(t) implies val_of(
                        inner_of(needs@, t),
                        i,
                    ) + var.requests@.len() <= usize::MAX by {
                        if needs@.dom().contains(t) {
                            assert(needs@[t]@ == need_map_upto(sv, vid, tid, t, i as int));
                        }
                    }
                    assert forall|t: usize| var.allocated@.contains(t) implies val_of(
                        inner_of(allocation@, t),
                        i,
                    ) + var.allocated@.len() <= usize::MAX by {
                        if allocation@.dom().contains(t) {
                            assert(allocation@[t]@ == held_map_upto(sv, t, i as int));
                        }
                    }
                }
                *works.get_mut_or_insert_default(i) = (var.total as isize) - (
                var.allocated.len() as isize);
                tally(&mut needs, &var.requests, i);
                let ghost n1 = needs@;
                tally(&mut allocation, &var.allocated, i);
                note_threads(&mut needs, &var.allocated);
                proof {
                    assert(needs@.dom() =~= threads_upto(sv, tid, i as int + 1));
                    assert(allocation@.dom() =~= holders_upto(sv, i as int + 1));
                    assert forall|t: usize| #[trigger] needs@.dom().contains(t) implies needs@[t]@
                        == need_map_upto(sv, vid, tid, t, i as int + 1) by {
                        if !n0.dom().contains(t) {
                            lemma_need_map_fresh(sv, vid, tid, t, i as int);
                        }
                        if !n1.dom().contains(t) {
                            lemma_count_pos(req_of(sv, i as int), t);
                        }
                    }
                    assert forall|t: usize| #[trigger]
                        allocation@.dom().contains(t) implies allocation@[t]@ == held_map_upto(
                        sv,
                        t,
                        i as int + 1,
                    ) by {
                        if !a0.dom().contains(t) {
                            lemma_held_map_fresh(sv, t, i as int);
                        }
                    }
                }
            },
        }
        i = i + 1;
    }
    let ghost mut done: Set<usize> = Set::empty();
    let ghost mut order: Seq<usize> = Seq::empty();
    proof {
        assert(sv.len() == i);
        assert(threads_upto(sv, tid, sv.len() as int) =~= threads(sv, tid)) by {
            assert forall|t: usize| #![auto] threads(sv, tid).contains(t) implies threads_upto(
                sv,
                tid,
                sv.len() as int,
            ).contains(t) by {
                if t != tid {
                    let v = choose|v: int|
                        #![trigger sv[v]]
                        slot(sv, v) && (req_of(sv, v).contains(t) || alloc_of(sv, v).contains(t));
                    assert(v < sv.len());
                }
            }
        }
        assert(needs@.dom() =~= threads(sv, tid).difference(done));
        assert forall|v: usize| #[trigger] works@.dom().contains(v) implies works@[v] as int
            == avail(sv, v as int, done) by {
            lemma_count_in_empty(alloc_of(sv, v as int));
        }
        assert(order.to_set() =~= done);
    }
    loop
        invariant
            sv == sync_var@,
            vid == var_id as int,
            slot(sv, vid),
            counts_fit(sv),
            sv.len() <= usize::MAX,
            works.wf(),
            forall|v: usize| #[trigger] works@.dom().contains(v) <==> slot(sv, v as int),
            forall|v: usize| #[trigger]
                works@.dom().contains(v) ==> works@[v] as int == avail(sv, v as int, done),
            needs.wf(),
            inner_wf(needs@),
            needs@.dom() == threads(sv, tid).difference(done),
            forall|t: usize| #[trigger]
                needs@.dom().contains(t) ==> needs@[t]@ == need_map_upto(
                    sv,
                    vid,
                    tid,
                    t,
                    sv.len() as int,
                ),
            allocation.wf(),
            inner_wf(allocation@),
            allocation@.dom() == holders_upto(sv, sv.len() as int),
            forall|t: usize| #[trigger]
                allocation@.dom().contains(t) ==> allocation@[t]@ == held_map_upto(
                    sv,
                    t,
                    sv.len() as int,
                ),
            done == order.to_set(),
            order.no_duplicates(),
            done.subset_of(threads(sv, tid)),
            forall|k: int|
                #![trigger order[k]]
                0 <= k < order.len() ==> ready(sv, vid, tid, order[k], order.take(k).to_set()),
        decreases needs.items@.len(),
    {
        if needs.items.len() == 0 {
            proof {
                assert forall|t: usize| threads(sv, tid).contains(t) implies done.contains(t) by {
                    if !done.contains(t) {
                        assert(needs@.dom().contains(t));
                    }
                }
                assert(order.to_set() =~= threads(sv, tid));
                assert(safe_order(sv, vid, tid, order));
            }
            return false;
        }
        proof {
            assert forall|t: usize, v: usize| #[trigger]
                needs@.dom().contains(t) && #[trigger] needs@[t]@.dom().contains(v) implies works@.dom().contains(v)
                && needs@[t]@[v] <= isize::MAX by {
                lemma_count_le_len(req_of(sv, v as int), t);
            }
            assert forall|t: usize| #[trigger] needs@.dom().contains(t) implies covered(needs@[t]@, works@)
                == ready(sv, vid, tid, t, done) by {
                lemma_covered_iff_ready(sv, vid, tid, t, done, works@);
            }
        }
        match find_ready(&needs, &works) {
            Some(t) => {
                let ghost w0 = works@;
                needs.remove(t);
                proof {
                    assert forall|v: usize| #[trigger] works@.dom().contains(v) implies (w0[v] as int)
                        + val_of(held_map_upto(sv, t, sv.len() as int), v) == avail(
                        sv,
                        v as int,
                        done.insert(t),
                    ) && avail(sv, v as int, done.insert(t)) <= isize::MAX && count(alloc_of(sv, v as int), t) <= isize::MAX by {
                        let s = alloc_of(sv, v as int);
                        lemma_count_in_insert(s, done, t);
                        lemma_count_pos(s, t);
                        lemma_count_le_len(s, t);
                        lemma_count_in_le_len(s, done.insert(t));
                    }
                }
                match allocation.get(t) {
                    Some(held) => {
                        proof {
                            assert(held@ == held_map_upto(sv, t, sv.len() as int));
                            assert forall|v: usize| #[trigger] held@.dom().contains(v) implies works@.dom().contains(v)
                                && works@[v] + held@[v] <= isize::MAX && held@[v] <= isize::MAX by {
                                assert(works@.dom().contains(v));
                                assert(val_of(held@, v) == held@[v]);
                            }
                        }
                        release_allocations(&mut works, held);
                    },
                    None => {
                        proof {
                            assert forall|v: usize| #[trigger] works@.dom().contains(v) implies val_of(
                                held_map_upto(sv, t, sv.len() as int),
                                v,
                            ) == 0 by {
                                if alloc_of(sv, v as int).contains(t) {
                                    assert(holders_upto(sv, sv.len() as int).contains(t));
                                }
                            }
                        }
                    },
                }
                proof {
                    assert(ready(sv, vid, tid, t, done));
                    let ghost old_order = order;
                    done = done.insert(t);
                    order = order.push(t);
                    assert(order.to_set() =~= done) by {
                        assert forall|x: usize| #![auto] order.to_set().contains(x) == done.contains(x) by {
                            if old_order.to_set().contains(x) {
                                let k = choose|k: int| 0 <= k < old_order.len() && old_order[k] == x;
                                assert(order[k] == x);
                            }
                            if x == t {
                                assert(order[old_order.len() as int] == x);
                            }
                            if order.to_set().contains(x) {
                                let k = choose|k: int| 0 <= k < order.len() && order[k] == x;
                                if k < old_order.len() {
                                    assert(old_order[k] == x);
                                }
                            }
                        }
                    }
                    assert forall|k: int| #![trigger order[k]] 0 <= k < order.len() implies ready(
                        sv,
                        vid,
                        tid,
                        order[k],
                        order.take(k).to_set(),
                    ) by {
                        if k < old_order.len() {
                            assert(order.take(k) =~= old_order.take(k));
                            assert(order[k] == old_order[k]);
                        } else {
                            assert(order.take(k) =~= old_order);
                        }
                    }
                    assert(needs@.dom() =~= threads(sv, tid).difference(done));
                }
            },
            None => {
                proof {
                    crate::vec_map::lemma_assoc_map_index(needs.items@, 0);
                    let left = needs.items@[0].0;
                    assert forall|t: usize|
                        threads(sv, tid).contains(t) && !done.contains(t) implies !ready(
                        sv,
                        vid,
                        tid,
                        t,
                        done,
                    ) by {
                        assert(needs@.dom().contains(t));
                    }
                    lemma_stuck_means_unsafe(sv, vid, tid, done, left);
                }
                return true;
            },
        }
    }
}

} // verus!
