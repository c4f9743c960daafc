//! Synchronisation primitives and deadlock detection.
use vstd::prelude::*;

pub mod mutex;
pub mod semaphore;

use crate::sync::mutex::{Mutex, MutexEntry};
use crate::sync::semaphore::Semaphore;

verus! {

/// What a thread holds and what it waits for, as far as the lock and
/// semaphore bookkeeping goes.
pub struct ThreadRes {
    /// Thread id, the value queued in wait queues.
    pub tid: usize,
    /// Ids of the resources the thread holds, in the order it got them.
    pub res_holding: Vec<usize>,
    /// The resource the thread waits for, if any.
    pub res_earning: Option<usize>,
}

/// The synchronisation state of a process: its mutex and semaphore tables,
/// indexed by resource id, and its thread table, indexed by slot.
pub struct ProcessSync {
    pub mutex_list: Vec<Option<MutexEntry>>,
    pub semaphore_list: Vec<Option<Semaphore>>,
    pub tasks: Vec<Option<ThreadRes>>,
}

/// What a `try_lock` or `try_down` tells the scheduler to do.
pub enum TryStep {
    /// The resource was taken; the call returns 0.
    Acquired,
    /// A spinlock is taken and no deadlock was found: suspend the thread and
    /// try again.
    Retry,
    /// The thread was queued and no deadlock was found: block it; once woken,
    /// complete the call with `mutex_resume` or `semaphore_resume`, and it returns 0.
    Blocked,
    /// Waiting would deadlock: the call returns `DEADLOCK_CODE`.
    Deadlock,
}

/// What `try_lock` and `try_down` return when waiting would deadlock.
pub const DEADLOCK_CODE: isize = -0xDEAD;

// ---------------------------------------------------------------------------
// Deadlock detection, as a computation on values
// ---------------------------------------------------------------------------

/// The ids of the free mutexes among the slots `0..k`, in increasing order:
/// a slot counts as free when it holds a mutex that is not used.
pub open spec fn free_mutex_ids(list: Seq<Option<MutexEntry>>, k: nat) -> Seq<usize>
    decreases k,
{
    if k == 0 {
        Seq::empty()
    } else {
        let prev = free_mutex_ids(list, (k - 1) as nat);
        match list[k - 1] {
            Some(m) => if !m.used_flag() { prev.push((k - 1) as usize) } else { prev },
            None => prev,
        }
    }
}

/// The ids of the free semaphores among the slots `0..k`, in increasing
/// order: a slot counts as free when it holds a semaphore with a free unit,
/// or with a unit handed to a woken thread that has not taken it up yet.
pub open spec fn free_semaphore_ids(list: Seq<Option<Semaphore>>, k: nat) -> Seq<usize>
    decreases k,
{
    if k == 0 {
        Seq::empty()
    } else {
        let prev = free_semaphore_ids(list, (k - 1) as nat);
        match list[k - 1] {
            Some(sem) => if sem.inner.count > 0 || sem.inner.unused_cnt > 0 {
                prev.push((k - 1) as usize)
            } else {
                prev
            },
            None => prev,
        }
    }
}

proof fn lemma_free_mutex_ids_below(list: Seq<Option<MutexEntry>>, k: nat)
    requires
        k <= usize::MAX,
    ensures
        forall|i: int| 0 <= i < free_mutex_ids(list, k).len() ==> (#[trigger] free_mutex_ids(list, k)[i]) < k,
    decreases k,
{
    if k > 0 {
        lemma_free_mutex_ids_below(list, (k - 1) as nat);
        let prev = free_mutex_ids(list, (k - 1) as nat);
        let cur = free_mutex_ids(list, k);
        assert(cur == prev || cur == prev.push((k - 1) as usize));
        assert forall|i: int| 0 <= i < cur.len() implies (#[trigger] cur[i]) < k by {
            if i < prev.len() {
                assert(cur[i] == prev[i]);
            }
        }
    }
}

proof fn lemma_free_semaphore_ids_below(list: Seq<Option<Semaphore>>, k: nat)
    requires
        k <= usize::MAX,
    ensures
        forall|i: int| 0 <= i < free_semaphore_ids(list, k).len() ==> (#[trigger] free_semaphore_ids(list, k)[i]) < k,
    decreases k,
{
    if k > 0 {
        lemma_free_semaphore_ids_below(list, (k - 1) as nat);
        let prev = free_semaphore_ids(list, (k - 1) as nat);
        let cur = free_semaphore_ids(list, k);
        assert(cur == prev || cur == prev.push((k - 1) as usize));
        assert forall|i: int| 0 <= i < cur.len() implies (#[trigger] cur[i]) < k by {
            if i < prev.len() {
                assert(cur[i] == prev[i]);
            }
        }
    }
}

/// The free mutexes among slots `0..k` are exactly the slots holding a mutex
/// that is not used.
pub proof fn lemma_free_mutex_ids_are_unused(list: Seq<Option<MutexEntry>>, k: nat, id: usize)
    requires
        k <= list.len(),
        k <= usize::MAX,
    ensures
        free_mutex_ids(list, k).contains(id) <==> (id < k && (match list[id as int] {
            Some(MutexEntry::Spin(m)) => !m.used,
            Some(MutexEntry::Blocking(m)) => !m.inner.used,
            None => false,
        })),
    decreases k,
{
    if k > 0 {
        lemma_free_mutex_ids_are_unused(list, (k - 1) as nat, id);
        lemma_free_mutex_ids_below(list, (k - 1) as nat);
        let prev = free_mutex_ids(list, (k - 1) as nat);
        let cur = free_mutex_ids(list, k);
        assert(cur == prev || cur == prev.push((k - 1) as usize));
        if cur == prev.push((k - 1) as usize) {
            if prev.contains(id) {
                let i = choose|i: int| 0 <= i < prev.len() && prev[i] == id;
                assert(cur[i] == id);
            }
            if id == k - 1 {
                assert(cur[prev.len() as int] == id);
            }
            if cur.contains(id) {
                let i = choose|i: int| 0 <= i < cur.len() && cur[i] == id;
                if i < prev.len() {
                    assert(prev[i] == id);
                }
            }
        }
        if id == k - 1 && prev.contains(id) {
            let i = choose|i: int| 0 <= i < prev.len() && prev[i] == id;
            assert(prev[i] < k - 1);
        }
    }
}

/// The free semaphores among slots `0..k` are exactly the slots holding a
/// semaphore with a free unit or with a unit handed to a woken thread that
/// has not taken it up yet.
pub proof fn lemma_free_semaphore_ids_have_units(list: Seq<Option<Semaphore>>, k: nat, id: usize)
    requires
        k <= list.len(),
        k <= usize::MAX,
    ensures
        free_semaphore_ids(list, k).contains(id) <==> (id < k && (match list[id as int] {
            Some(sem) => sem.inner.count > 0 || sem.inner.unused_cnt > 0,
            None => false,
        })),
    decreases k,
{
    if k > 0 {
        lemma_free_semaphore_ids_have_units(list, (k - 1) as nat, id);
        lemma_free_semaphore_ids_below(list, (k - 1) as nat);
        let prev = free_semaphore_ids(list, (k - 1) as nat);
        let cur = free_semaphore_ids(list, k);
        assert(cur == prev || cur == prev.push((k - 1) as usize));
        if cur == prev.push((k - 1) as usize) {
            if prev.contains(id) {
                let i = choose|i: int| 0 <= i < prev.len() && prev[i] == id;
                assert(cur[i] == id);
            }
            if id == k - 1 {
                assert(cur[prev.len() as int] == id);
            }
            if cur.contains(id) {
                let i = choose|i: int| 0 <= i < cur.len() && cur[i] == id;
                if i < prev.len() {
                    assert(prev[i] == id);
                }
            }
        }
        if id == k - 1 && prev.contains(id) {
            let i = choose|i: int| 0 <= i < prev.len() && prev[i] == id;
            assert(prev[i] < k - 1);
        }
    }
}

/// A semaphore with a unit free, or with a unit handed to a woken thread
/// that has not taken it up yet, counts as free when a detection starts; an
/// unused mutex likewise.
pub proof fn lemma_initially_free_slots(p: ProcessSync, id: usize)
    requires
        p.semaphore_list@.len() <= usize::MAX,
        p.mutex_list@.len() <= usize::MAX,
    ensures
        initially_free(p, false).contains(id) <==> (id < p.semaphore_list@.len() && (match p.semaphore_list@[id as int] {
            Some(sem) => sem.inner.count > 0 || sem.inner.unused_cnt > 0,
            None => false,
        })),
        initially_free(p, true).contains(id) <==> (id < p.mutex_list@.len() && (match p.mutex_list@[id as int] {
            Some(MutexEntry::Spin(m)) => !m.used,
            Some(MutexEntry::Blocking(m)) => !m.inner.used,
            None => false,
        })),
{
    lemma_free_semaphore_ids_have_units(p.semaphore_list@, p.semaphore_list@.len(), id);
    lemma_free_mutex_ids_are_unused(p.mutex_list@, p.mutex_list@.len(), id);
}

/// The resources free at the start of a detection, of the mutex table when
/// `is_lock`, of the semaphore table otherwise.
pub open spec fn initially_free(p: ProcessSync, is_lock: bool) -> Seq<usize> {
    if is_lock {
        free_mutex_ids(p.mutex_list@, p.mutex_list@.len())
    } else {
        free_semaphore_ids(p.semaphore_list@, p.semaphore_list@.len())
    }
}

/// The threads of a thread table, in slot order, empty slots left out.
pub open spec fn living(tasks: Seq<Option<ThreadRes>>) -> Seq<ThreadRes>
    decreases tasks.len(),
{
    if tasks.len() == 0 {
        Seq::empty()
    } else {
        let prev = living(tasks.drop_last());
        match tasks.last() {
            Some(t) => prev.push(t),
            None => prev,
        }
    }
}

/// The threads behind a sequence of references.
pub open spec fn deref_all(ts: Seq<&ThreadRes>) -> Seq<ThreadRes> {
    ts.map_values(|t: &ThreadRes| *t)
}

/// Where a detection stands: the resources known to become free, which
/// threads are known to finish, and in which order they were found
/// (`order` is bookkeeping for the proofs only).
pub ghost struct DetectState {
    pub avail: Seq<usize>,
    pub done: Seq<bool>,
    pub order: Seq<int>,
}

/// Thread `i` is found to finish: what it holds becomes free.
pub open spec fn release(tasks: Seq<ThreadRes>, st: DetectState, i: int) -> DetectState {
    DetectState {
        avail: st.avail + tasks[i].res_holding@,
        done: st.done.update(i, true),
        order: st.order.push(i),
    }
}

/// The resources free once the threads of `order` have finished, in that
/// order, each releasing what it holds.
pub open spec fn released(tasks: Seq<ThreadRes>, avail0: Seq<usize>, order: Seq<int>) -> Seq<usize>
    decreases order.len(),
{
    if order.len() == 0 {
        avail0
    } else {
        released(tasks, avail0, order.drop_last()) + tasks[order.last()].res_holding@
    }
}

/// `order` lists every thread once, and each thread in it either waits for
/// nothing or waits for a resource that is free once the threads before it
/// have finished: running the threads in that order ends without deadlock.
pub open spec fn is_safe_order(tasks: Seq<ThreadRes>, avail0: Seq<usize>, order: Seq<int>) -> bool {
    &&& order.no_duplicates()
    &&& forall|k: int| 0 <= k < order.len() ==> 0 <= #[trigger] order[k] < tasks.len()
    &&& forall|j: int| 0 <= j < tasks.len() ==> #[trigger] order.contains(j)
    &&& forall|k: int|
        0 <= k < order.len() ==> match (#[trigger] tasks[order[k]]).res_earning {
            Some(r) => released(tasks, avail0, order.take(k)).contains(r),
            None => true,
        }
}

/// What holds of every state the detection passes through.
pub open spec fn detect_inv(tasks: Seq<ThreadRes>, avail0: Seq<usize>, st: DetectState) -> bool {
    &&& st.done.len() == tasks.len()
    &&& st.avail == released(tasks, avail0, st.order)
    &&& st.order.no_duplicates()
    &&& forall|k: int| 0 <= k < st.order.len() ==> 0 <= #[trigger] st.order[k] < tasks.len()
    &&& forall|j: int| 0 <= j < tasks.len() ==> (#[trigger] st.done[j] <==> st.order.contains(j))
    &&& forall|k: int|
        0 <= k < st.order.len() ==> match (#[trigger] tasks[st.order[k]]).res_earning {
            Some(r) => released(tasks, avail0, st.order.take(k)).contains(r),
            None => true,
        }
}

/// No deadlock: the threads can all run to completion in some order, each
/// one finding the resource it waits for free at the start or released by
/// the threads that finished before it.
pub open spec fn deadlock_free(tasks: Seq<ThreadRes>, avail0: Seq<usize>) -> bool {
    exists|order: Seq<int>| is_safe_order(tasks, avail0, order)
}

/// A state the detection cannot leave: every thread is known to finish or
/// waits for a resource that is not free.
pub open spec fn stuck_or_done(tasks: Seq<ThreadRes>, st: DetectState) -> bool {
    forall|j: int| 0 <= j < tasks.len() ==> (#[trigger] st.done[j] || match tasks[j].res_earning {
        Some(r) => !st.avail.contains(r),
        None => false,
    })
}

/// The number of threads not known to finish.
pub open spec fn undone(done: Seq<bool>) -> nat
    decreases done.len(),
{
    if done.len() == 0 {
        0
    } else {
        undone(done.drop_last()) + if done.last() { 0nat } else { 1nat }
    }
}

proof fn lemma_undone_mark(done: Seq<bool>, i: int)
    requires
        0 <= i < done.len(),
        !done[i],
    ensures
        undone(done.update(i, true)) + 1 == undone(done),
    decreases done.len(),
{
    let d2 = done.update(i, true);
    if i == done.len() - 1 {
        assert(d2.drop_last() =~= done.drop_last());
    } else {
        assert(d2.drop_last() =~= done.drop_last().update(i, true));
        lemma_undone_mark(done.drop_last(), i);
    }
}

proof fn lemma_release_inv(tasks: Seq<ThreadRes>, avail0: Seq<usize>, st: DetectState, i: int)
    requires
        detect_inv(tasks, avail0, st),
        0 <= i < tasks.len(),
        !st.done[i],
        match tasks[i].res_earning {
            Some(r) => st.avail.contains(r),
            None => true,
        },
    ensures
        detect_inv(tasks, avail0, release(tasks, st, i)),
{
    let st2 = release(tasks, st, i);
    let o2 = st.order.push(i);
    assert(o2.drop_last() =~= st.order);
    assert(o2.take(st.order.len() as int) =~= st.order);
    assert forall|k: int| 0 <= k < st.order.len() implies #[trigger] o2.take(k) == st.order.take(k) by {
        assert(o2.take(k) =~= st.order.take(k));
    }
    assert forall|a: int, b: int| 0 <= a < b < o2.len() implies o2[a] != o2[b] by {
        if b == st.order.len() {
            assert(st.order.contains(st.order[a]));
        }
    }
    assert forall|k: int|
        0 <= k < o2.len() implies match (#[trigger] tasks[o2[k]]).res_earning {
            Some(r) => released(tasks, avail0, o2.take(k)).contains(r),
            None => true,
        } by {
        if k < st.order.len() {
            assert(o2[k] == st.order[k]);
            assert(o2.take(k) == st.order.take(k));
        }
    }
    assert forall|j: int| 0 <= j < tasks.len() implies (#[trigger] st2.done[j] <==> st2.order.contains(j)) by {
        if j == i {
            assert(o2[st.order.len() as int] == i);
        } else {
            if st.order.contains(j) {
                let k = choose|k: int| 0 <= k < st.order.len() && st.order[k] == j;
                assert(o2[k] == j);
            }
            if o2.contains(j) {
                let k = choose|k: int| 0 <= k < o2.len() && o2[k] == j;
                assert(st.order[k] == j);
            }
        }
    }
}

proof fn lemma_avail0_released(tasks: Seq<ThreadRes>, avail0: Seq<usize>, order: Seq<int>, x: usize)
    requires
        avail0.contains(x),
    ensures
        released(tasks, avail0, order).contains(x),
    decreases order.len(),
{
    if order.len() > 0 {
        lemma_avail0_released(tasks, avail0, order.drop_last(), x);
        let prev = released(tasks, avail0, order.drop_last());
        let i = choose|i: int| 0 <= i < prev.len() && prev[i] == x;
        assert((prev + tasks[order.last()].res_holding@)[i] == x);
    }
}

proof fn lemma_holding_released(tasks: Seq<ThreadRes>, avail0: Seq<usize>, order: Seq<int>, j: int, x: usize)
    requires
        order.contains(j),
        tasks[j].res_holding@.contains(x),
    ensures
        released(tasks, avail0, order).contains(x),
    decreases order.len(),
{
    let prev = released(tasks, avail0, order.drop_last());
    let h = tasks[order.last()].res_holding@;
    if order.last() == j {
        let i = choose|i: int| 0 <= i < h.len() && h[i] == x;
        assert((prev + h)[prev.len() + i] == x);
    } else {
        let k = choose|k: int| 0 <= k < order.len() && order[k] == j;
        assert(order.drop_last()[k] == j);
        lemma_holding_released(tasks, avail0, order.drop_last(), j, x);
        let i = choose|i: int| 0 <= i < prev.len() && prev[i] == x;
        assert((prev + h)[i] == x);
    }
}

/// What threads known to finish release, in any order, is free in the state.
proof fn lemma_released_within(tasks: Seq<ThreadRes>, avail0: Seq<usize>, st: DetectState, o: Seq<int>, x: usize)
    requires
        detect_inv(tasks, avail0, st),
        forall|m: int| 0 <= m < o.len() ==> 0 <= #[trigger] o[m] < tasks.len() && st.done[o[m]],
        released(tasks, avail0, o).contains(x),
    ensures
        st.avail.contains(x),
    decreases o.len(),
{
    if o.len() == 0 {
        lemma_avail0_released(tasks, avail0, st.order, x);
    } else {
        let prev = released(tasks, avail0, o.drop_last());
        let h = tasks[o.last()].res_holding@;
        let i = choose|i: int| 0 <= i < (prev + h).len() && (prev + h)[i] == x;
        if i < prev.len() {
            assert(prev[i] == x);
            assert forall|m: int| 0 <= m < o.drop_last().len() implies 0 <= #[trigger] o.drop_last()[m] < tasks.len()
                && st.done[o.drop_last()[m]] by {
                assert(o.drop_last()[m] == o[m]);
            }
            lemma_released_within(tasks, avail0, st, o.drop_last(), x);
        } else {
            assert(h[i - prev.len()] == x);
            assert(st.done[o[o.len() - 1]]);
            assert(st.order.contains(o.last()));
            lemma_holding_released(tasks, avail0, st.order, o.last(), x);
        }
    }
}

/// In a state the detection cannot leave, every thread placed in a safe order
/// is known to finish.
proof fn lemma_safe_prefix_done(tasks: Seq<ThreadRes>, avail0: Seq<usize>, st: DetectState, order: Seq<int>, k: int)
    requires
        detect_inv(tasks, avail0, st),
        stuck_or_done(tasks, st),
        is_safe_order(tasks, avail0, order),
        0 <= k <= order.len(),
    ensures
        forall|m: int| 0 <= m < k ==> #[trigger] st.done[order[m]],
    decreases k,
{
    if k > 0 {
        lemma_safe_prefix_done(tasks, avail0, st, order, k - 1);
        let t = order[k - 1];
        assert(0 <= t < tasks.len());
        if !st.done[t] {
            assert(st.done[t] || match tasks[t].res_earning {
                Some(r) => !st.avail.contains(r),
                None => false,
            });
            match tasks[t].res_earning {
                Some(r) => {
                    assert(match (tasks[order[k - 1]]).res_earning {
                        Some(r) => released(tasks, avail0, order.take(k - 1)).contains(r),
                        None => true,
                    });
                    let o = order.take(k - 1);
                    assert forall|m: int| 0 <= m < o.len() implies 0 <= #[trigger] o[m] < tasks.len() && st.done[o[m]] by {
                        assert(o[m] == order[m]);
                    }
                    lemma_released_within(tasks, avail0, st, o, r);
                },
                None => {},
            }
        }
    }
}

/// A state the detection cannot leave decides deadlock: every thread is
/// known to finish exactly when the threads can all run to completion in
/// some order.
proof fn lemma_stuck_decides(tasks: Seq<ThreadRes>, avail0: Seq<usize>, st: DetectState)
    requires
        detect_inv(tasks, avail0, st),
        stuck_or_done(tasks, st),
    ensures
        (forall|j: int| 0 <= j < tasks.len() ==> #[trigger] st.done[j]) <==> deadlock_free(tasks, avail0),
{
    if forall|j: int| 0 <= j < tasks.len() ==> #[trigger] st.done[j] {
        assert forall|j: int| 0 <= j < tasks.len() implies #[trigger] st.order.contains(j) by {
            assert(st.done[j]);
        }
        assert(is_safe_order(tasks, avail0, st.order));
    }
    if deadlock_free(tasks, avail0) {
        let order = choose|order: Seq<int>| is_safe_order(tasks, avail0, order);
        lemma_safe_prefix_done(tasks, avail0, st, order, order.len() as int);
        assert forall|j: int| 0 <= j < tasks.len() implies #[trigger] st.done[j] by {
            assert(order.contains(j));
            let m = choose|m: int| 0 <= m < order.len() && order[m] == j;
            assert(st.done[order[m]]);
        }
    }
}

proof fn lemma_released_grows(tasks: Seq<ThreadRes>, a0: Seq<usize>, a1: Seq<usize>, order: Seq<int>, x: usize)
    requires
        forall|y: usize| a0.contains(y) ==> a1.contains(y),
        released(tasks, a0, order).contains(x),
    ensures
        released(tasks, a1, order).contains(x),
    decreases order.len(),
{
    if order.len() == 0 {
    } else {
        let p0 = released(tasks, a0, order.drop_last());
        let p1 = released(tasks, a1, order.drop_last());
        let h = tasks[order.last()].res_holding@;
        let i = choose|i: int| 0 <= i < (p0 + h).len() && (p0 + h)[i] == x;
        if i < p0.len() {
            assert(p0[i] == x);
            lemma_released_grows(tasks, a0, a1, order.drop_last(), x);
            let j = choose|j: int| 0 <= j < p1.len() && p1[j] == x;
            assert((p1 + h)[j] == x);
        } else {
            assert((p1 + h)[p1.len() + i - p0.len()] == x);
        }
    }
}

/// Freeing resources never turns a deadlock-free process into a deadlocked
/// one: with more resources free at the start, the same order still works.
pub proof fn lemma_deadlock_free_monotone(tasks: Seq<ThreadRes>, a0: Seq<usize>, a1: Seq<usize>)
    requires
        forall|y: usize| a0.contains(y) ==> a1.contains(y),
        deadlock_free(tasks, a0),
    ensures
        deadlock_free(tasks, a1),
{
    let order = choose|order: Seq<int>| is_safe_order(tasks, a0, order);
    assert forall|k: int|
        0 <= k < order.len() implies match (#[trigger] tasks[order[k]]).res_earning {
            Some(r) => released(tasks, a1, order.take(k)).contains(r),
            None => true,
        } by {
        match tasks[order[k]].res_earning {
            Some(r) => lemma_released_grows(tasks, a0, a1, order.take(k), r),
            None => {},
        }
    }
    assert(is_safe_order(tasks, a1, order));
}

proof fn lemma_released_from(tasks: Seq<ThreadRes>, avail0: Seq<usize>, order: Seq<int>, x: usize)
    requires
        forall|k: int| 0 <= k < order.len() ==> 0 <= #[trigger] order[k] < tasks.len(),
        released(tasks, avail0, order).contains(x),
    ensures
        avail0.contains(x) || exists|j: int| 0 <= j < tasks.len() && #[trigger] tasks[j].res_holding@.contains(x),
    decreases order.len(),
{
    if order.len() > 0 {
        let prev = released(tasks, avail0, order.drop_last());
        let h = tasks[order.last()].res_holding@;
        let i = choose|i: int| 0 <= i < (prev + h).len() && (prev + h)[i] == x;
        if i < prev.len() {
            assert(prev[i] == x);
            assert forall|k: int| 0 <= k < order.drop_last().len() implies 0 <= #[trigger] order.drop_last()[k] < tasks.len() by {
                assert(order.drop_last()[k] == order[k]);
            }
            lemma_released_from(tasks, avail0, order.drop_last(), x);
        } else {
            assert(h[i - prev.len()] == x);
            assert(tasks[order.last()].res_holding@.contains(x));
        }
    }
}

/// When a thread waits for a resource that is neither free at the start nor
/// held by any thread, the process is deadlocked.
pub proof fn lemma_unobtainable_wait_is_deadlock(tasks: Seq<ThreadRes>, avail0: Seq<usize>, i: int, r: usize)
    requires
        0 <= i < tasks.len(),
        tasks[i].res_earning == Some(r),
        !avail0.contains(r),
        forall|j: int| 0 <= j < tasks.len() ==> !(#[trigger] tasks[j].res_holding@.contains(r)),
    ensures
        !deadlock_free(tasks, avail0),
{
    if deadlock_free(tasks, avail0) {
        let order = choose|order: Seq<int>| is_safe_order(tasks, avail0, order);
        assert(order.contains(i));
        let k = choose|k: int| 0 <= k < order.len() && order[k] == i;
        assert(match (tasks[order[k]]).res_earning {
            Some(r) => released(tasks, avail0, order.take(k)).contains(r),
            None => true,
        });
        assert forall|m: int| 0 <= m < order.take(k).len() implies 0 <= #[trigger] order.take(k)[m] < tasks.len() by {
            assert(order.take(k)[m] == order[m]);
        }
        lemma_released_from(tasks, avail0, order.take(k), r);
    }
}

/// When no thread waits for anything, there is no deadlock.
pub proof fn lemma_nobody_waits_no_deadlock(tasks: Seq<ThreadRes>, avail0: Seq<usize>)
    requires
        forall|j: int| 0 <= j < tasks.len() ==> (#[trigger] tasks[j]).res_earning is None,
    ensures
        deadlock_free(tasks, avail0),
{
    let order = Seq::new(tasks.len(), |i: int| i);
    assert forall|j: int| 0 <= j < tasks.len() implies #[trigger] order.contains(j) by {
        assert(order[j] == j);
    }
    assert(is_safe_order(tasks, avail0, order));
}

/// When every thread waits for nothing or for a resource free at the start,
/// there is no deadlock.
pub proof fn lemma_waits_on_free_no_deadlock(tasks: Seq<ThreadRes>, avail0: Seq<usize>)
    requires
        forall|j: int| 0 <= j < tasks.len() ==> match (#[trigger] tasks[j]).res_earning {
            Some(r) => avail0.contains(r),
            None => true,
        },
    ensures
        deadlock_free(tasks, avail0),
{
    let order = Seq::new(tasks.len(), |i: int| i);
    assert forall|j: int| 0 <= j < tasks.len() implies #[trigger] order.contains(j) by {
        assert(order[j] == j);
    }
    assert forall|k: int|
        0 <= k < order.len() implies match (#[trigger] tasks[order[k]]).res_earning {
            Some(r) => released(tasks, avail0, order.take(k)).contains(r),
            None => true,
        } by {
        match tasks[order[k]].res_earning {
            Some(r) => {
                assert(tasks[order[k]] == tasks[k]);
                lemma_avail0_released(tasks, avail0, order.take(k), r);
            },
            None => {},
        }
    }
    assert(is_safe_order(tasks, avail0, order));
}

/// Appends all of `src` to `dst`.
fn push_all(dst: &mut Vec<usize>, src: &Vec<usize>)
    ensures
        final(dst)@ == old(dst)@ + src@,
{
    let mut j: usize = 0;
    while j < src.len()
        invariant
            j <= src.len(),
            dst@ == old(dst)@ + src@.subrange(0, j as int),
        decreases src.len() - j,
    {
        dst.push(src[j]);
        j = j + 1;
        assert(dst@ =~= old(dst)@ + src@.subrange(0, j as int));
    }
    assert(src@.subrange(0, src@.len() as int) =~= src@);
}

/// Whether `x` occurs in `v`.
fn contains_id(v: &Vec<usize>, x: usize) -> (found: bool)
    ensures
        found == v@.contains(x),
{
    let mut j: usize = 0;
    while j < v.len()
        invariant
            j <= v.len(),
            forall|k: int| 0 <= k < j ==> v@[k] != x,
        decreases v.len() - j,
    {
        if v[j] == x {
            return true;
        }
        j = j + 1;
    }
    false
}

/// Checks whether the threads of a process can all still finish. The
/// resources free at the start are the unused mutexes (`is_lock`) or the
/// semaphores with a unit to give (otherwise). A thread waiting for nothing
/// can finish and release what it holds; then the threads are looked at in
/// turn, again and again until a whole pass finds no more, and a thread whose
/// awaited resource is free can finish and release what it holds. `true`
/// when every thread can finish: exactly when there is an order in which they
/// all run to completion.
pub fn check_deadlock_ok(living_tasks: Vec<&ThreadRes>, process_inner: &ProcessSync, is_lock: bool) -> (ok: bool)
    ensures
        ok == deadlock_free(deref_all(living_tasks@), initially_free(*process_inner, is_lock)),
{
    let size = living_tasks.len();
    let ghost tasks = deref_all(living_tasks@);
    let ghost avail0 = initially_free(*process_inner, is_lock);
    let mut available_res: Vec<usize> = Vec::new();
    let mut done: Vec<bool> = Vec::new();
    let mut k: usize = 0;
    while k < size
        invariant
            k <= size,
            done@ =~= Seq::new(k as nat, |j: int| false),
        decreases size - k,
    {
        done.push(false);
        k = k + 1;
    }
    if is_lock {
        let mut k: usize = 0;
        while k < process_inner.mutex_list.len()
            invariant
                k <= process_inner.mutex_list.len(),
                available_res@ == free_mutex_ids(process_inner.mutex_list@, k as nat),
            decreases process_inner.mutex_list.len() - k,
        {
            match &process_inner.mutex_list[k] {
                Some(lock) => {
                    if !lock.is_used() {
                        available_res.push(k);
                    }
                },
                None => {},
            }
            k = k + 1;
        }
    } else {
        let mut k: usize = 0;
        while k < process_inner.semaphore_list.len()
            invariant
                k <= process_inner.semaphore_list.len(),
                available_res@ == free_semaphore_ids(process_inner.semaphore_list@, k as nat),
            decreases process_inner.semaphore_list.len() - k,
        {
            match &process_inner.semaphore_list[k] {
                Some(sem) => {
                    if sem.inner.count > 0 || (sem.inner.count <= 0 && sem.inner.unused_cnt > 0) {
                        available_res.push(k);
                    }
                },
                None => {},
            }
            k = k + 1;
        }
    }
    let ghost mut st = DetectState {
        avail: avail0,
        done: Seq::new(size as nat, |j: int| false),
        order: Seq::empty(),
    };
    assert(available_res@ == st.avail);
    assert(tasks.len() == size);
    let mut i: usize = 0;
    while i < size
        invariant
            size == living_tasks.len(),
            tasks == deref_all(living_tasks@),
            i <= size,
            detect_inv(tasks, avail0, st),
            available_res@ == st.avail,
            done@ == st.done,
            forall|j: int| i <= j < size ==> !(#[trigger] st.done[j]),
            forall|j: int| 0 <= j < i && (#[trigger] tasks[j]).res_earning is None ==> st.done[j],
        decreases size - i,
    {
        let task_inner: &ThreadRes = living_tasks[i];
        assert(*task_inner == tasks[i as int]);
        if task_inner.res_earning.is_none() {
            push_all(&mut available_res, &task_inner.res_holding);
            done.set(i, true);
            proof {
                lemma_release_inv(tasks, avail0, st, i as int);
                st = release(tasks, st, i as int);
            }
        }
        i = i + 1;
    }
    let mut changed = true;
    while changed
        invariant
            size == living_tasks.len(),
            tasks == deref_all(living_tasks@),
            detect_inv(tasks, avail0, st),
            available_res@ == st.avail,
            done@ == st.done,
            forall|j: int| 0 <= j < size && (#[trigger] tasks[j]).res_earning is None ==> st.done[j],
            !changed ==> stuck_or_done(tasks, st),
        decreases undone(st.done), if changed { 1int } else { 0int },
    {
        changed = false;
        let ghost start = undone(st.done);
        let mut i: usize = 0;
        while i < size
            invariant
                size == living_tasks.len(),
                tasks == deref_all(living_tasks@),
                i <= size,
                detect_inv(tasks, avail0, st),
                available_res@ == st.avail,
                done@ == st.done,
                forall|j: int| 0 <= j < size && (#[trigger] tasks[j]).res_earning is None ==> st.done[j],
                !changed ==> undone(st.done) == start,
                changed ==> undone(st.done) < start,
                !changed ==> forall|j: int| 0 <= j < i ==> (#[trigger] st.done[j] || match tasks[j].res_earning {
                    Some(r) => !st.avail.contains(r),
                    None => false,
                }),
            decreases size - i,
        {
            let task_inner: &ThreadRes = living_tasks[i];
            assert(*task_inner == tasks[i as int]);
            if !done[i] {
                if let Some(earning_res) = task_inner.res_earning {
                    if contains_id(&available_res, earning_res) {
                        push_all(&mut available_res, &task_inner.res_holding);
                        done.set(i, true);
                        proof {
                            lemma_undone_mark(st.done, i as int);
                            lemma_release_inv(tasks, avail0, st, i as int);
                            st = release(tasks, st, i as int);
                        }
                        changed = true;
                    }
                }
            }
            i = i + 1;
        }
    }
    proof {
        lemma_stuck_decides(tasks, avail0, st);
    }
    let mut k: usize = 0;
    while k < size
        invariant
            k <= size,
            done@ == st.done,
            st.done.len() == size,
            tasks.len() == size,
            tasks == deref_all(living_tasks@),
            avail0 == initially_free(*process_inner, is_lock),
            (forall|j: int| 0 <= j < tasks.len() ==> #[trigger] st.done[j]) <==> deadlock_free(tasks, avail0),
            forall|j: int| 0 <= j < k ==> #[trigger] st.done[j],
        decreases size - k,
    {
        if !done[k] {
            assert(!st.done[k as int]);
            return false;
        }
        k = k + 1;
    }
    true
}

/// Mutex tables with the same free slots give the same free ids.
proof fn lemma_free_mutex_ids_same(l1: Seq<Option<MutexEntry>>, l2: Seq<Option<MutexEntry>>, k: nat)
    requires
        k <= l1.len(),
        k <= l2.len(),
        forall|j: int| 0 <= j < k ==> (#[trigger] l1[j] is Some) == (l2[j] is Some),
        forall|j: int| 0 <= j < k && #[trigger] l1[j] is Some ==> l1[j].unwrap().used_flag() == l2[j].unwrap().used_flag(),
    ensures
        free_mutex_ids(l1, k) == free_mutex_ids(l2, k),
    decreases k,
{
    if k > 0 {
        lemma_free_mutex_ids_same(l1, l2, (k - 1) as nat);
        assert(l1[k - 1] is Some == l2[k - 1] is Some);
    }
}

/// Semaphore tables with the same free slots give the same free ids.
proof fn lemma_free_semaphore_ids_same(l1: Seq<Option<Semaphore>>, l2: Seq<Option<Semaphore>>, k: nat)
    requires
        k <= l1.len(),
        k <= l2.len(),
        forall|j: int| 0 <= j < k ==> (#[trigger] l1[j] is Some) == (l2[j] is Some),
        forall|j: int| 0 <= j < k && #[trigger] l1[j] is Some ==> {
            &&& l1[j].unwrap().inner.count == l2[j].unwrap().inner.count
            &&& l1[j].unwrap().inner.unused_cnt == l2[j].unwrap().inner.unused_cnt
        },
    ensures
        free_semaphore_ids(l1, k) == free_semaphore_ids(l2, k),
    decreases k,
{
    if k > 0 {
        lemma_free_semaphore_ids_same(l1, l2, (k - 1) as nat);
        assert(l1[k - 1] is Some == l2[k - 1] is Some);
    }
}

/// What the call returns for a step: `DEADLOCK_CODE` when it would
/// deadlock, 0 otherwise (after the retry or the wake-up for `Retry` and
/// `Blocked`).
pub open spec fn code_of(r: TryStep) -> isize {
    if r is Deadlock { DEADLOCK_CODE } else { 0 }
}

/// A try-lock or try-down returns 0 unless waiting would deadlock, when it
/// returns -0xDEAD; in particular a resource taken at once gives 0.
pub proof fn lemma_step_codes(r: TryStep)
    ensures
        DEADLOCK_CODE == -0xDEAD,
        r is Deadlock ==> code_of(r) == -0xDEAD,
        !(r is Deadlock) ==> code_of(r) == 0,
        r is Acquired ==> code_of(r) == 0,
{
}

impl TryStep {
    /// The value the call returns.
    pub fn code(&self) -> (c: isize)
        ensures
            c == code_of(*self),
            c == (if *self is Deadlock { -0xDEADisize } else { 0isize }),
    {
        match self {
            TryStep::Deadlock => DEADLOCK_CODE,
            _ => 0,
        }
    }
}

/// What a try-lock of mutex `mutex_id` by the thread in slot `cur` does,
/// taking the process from `p` to `p2` with result `r`. A free mutex is
/// taken and recorded among the thread's holdings. A taken one marks the
/// thread as waiting for it, and the deadlock detection is run on the
/// process: without deadlock a thread on a spinlock is to retry, one on a
/// blocking mutex joins its queue; with deadlock the call fails with
/// `DEADLOCK_CODE`.
pub open spec fn try_lock_effect(p: ProcessSync, p2: ProcessSync, mutex_id: usize, cur: usize, r: TryStep) -> bool {
        let e = p.mutex_list@[mutex_id as int].unwrap();
        let t = p.tasks@[cur as int].unwrap();
        let e2 = p2.mutex_list@[mutex_id as int].unwrap();
        let t2 = p2.tasks@[cur as int].unwrap();
        &&& p2.mutex_list@.len() == p.mutex_list@.len()
        &&& p2.tasks@.len() == p.tasks@.len()
        &&& forall|j: int| 0 <= j < p2.mutex_list@.len() && j != mutex_id
            ==> p2.mutex_list@[j] == p.mutex_list@[j]
        &&& forall|j: int| 0 <= j < p2.tasks@.len() && j != cur
            ==> p2.tasks@[j] == p.tasks@[j]
        &&& p2.semaphore_list@ == p.semaphore_list@
        &&& p2.mutex_list@[mutex_id as int] is Some
        &&& p2.tasks@[cur as int] is Some
        &&& e2.is_spin() == e.is_spin()
        &&& e.wf() ==> e2.wf()
        &&& t2.tid == t.tid
        &&& if !e.locked_flag() {
            &&& r is Acquired
            &&& code_of(r) == 0
            &&& e2.locked_flag() && e2.used_flag()
            &&& e2.waiters() == e.waiters()
            &&& t2.res_holding@ == t.res_holding@.push(mutex_id)
            &&& t2.res_earning == (if e.is_spin() { None } else { t.res_earning })
        } else {
            let ok = deadlock_free(
                living(p2.tasks@),
                free_mutex_ids(p.mutex_list@, p.mutex_list@.len()),
            );
            &&& t2.res_holding@ == t.res_holding@
            &&& t2.res_earning == Some(mutex_id)
            &&& e2.locked_flag() && e2.used_flag() == e.used_flag()
            &&& (r is Retry <==> ok && e.is_spin())
            &&& (r is Blocked <==> ok && !e.is_spin())
            &&& (r is Deadlock <==> !ok)
            &&& code_of(r) == (if ok { 0isize } else { DEADLOCK_CODE })
            &&& e2.waiters() == (if r is Blocked { e.waiters().push(t.tid) } else { e.waiters() })
        }
}

/// What a try-down of semaphore `sem_id` by the thread in slot `cur` does,
/// taking the process from `p` to `p2` with result `r`. The count goes down
/// in any case. With a unit free, the thread records it among its holdings.
/// Otherwise the thread is marked as waiting for the semaphore and the
/// deadlock detection is run on the process: without deadlock the thread
/// joins the queue; with deadlock the call fails with `DEADLOCK_CODE`.
pub open spec fn try_down_effect(p: ProcessSync, p2: ProcessSync, sem_id: usize, cur: usize, r: TryStep) -> bool {
        let s = p.semaphore_list@[sem_id as int].unwrap();
        let t = p.tasks@[cur as int].unwrap();
        let s2 = p2.semaphore_list@[sem_id as int].unwrap();
        let t2 = p2.tasks@[cur as int].unwrap();
        &&& p2.semaphore_list@.len() == p.semaphore_list@.len()
        &&& p2.tasks@.len() == p.tasks@.len()
        &&& forall|j: int| 0 <= j < p2.semaphore_list@.len() && j != sem_id
            ==> p2.semaphore_list@[j] == p.semaphore_list@[j]
        &&& forall|j: int| 0 <= j < p2.tasks@.len() && j != cur
            ==> p2.tasks@[j] == p.tasks@[j]
        &&& p2.mutex_list@ == p.mutex_list@
        &&& p2.semaphore_list@[sem_id as int] is Some
        &&& p2.tasks@[cur as int] is Some
        &&& s2.inner.count == s.inner.count - 1
        &&& s2.inner.unused_cnt == s.inner.unused_cnt
        &&& s.balanced() && !(r is Deadlock) ==> s2.balanced()
        &&& t2.tid == t.tid
        &&& if s.inner.count - 1 >= 0 {
            &&& r is Acquired
            &&& code_of(r) == 0
            &&& s2.inner.wait_queue@ == s.inner.wait_queue@
            &&& t2.res_holding@ == t.res_holding@.push(sem_id)
            &&& t2.res_earning == t.res_earning
        } else {
            let ok = deadlock_free(
                living(p2.tasks@),
                free_semaphore_ids(
                    p2.semaphore_list@,
                    p2.semaphore_list@.len(),
                ),
            );
            &&& t2.res_holding@ == t.res_holding@
            &&& t2.res_earning == Some(sem_id)
            &&& (r is Blocked <==> ok)
            &&& (r is Deadlock <==> !ok)
            &&& code_of(r) == (if ok { 0isize } else { DEADLOCK_CODE })
            &&& s2.inner.wait_queue@ == (if ok { s.inner.wait_queue@.push(t.tid) } else { s.inner.wait_queue@ })
        }
}

/// The thread in slot `j` holds resource `id`.
pub open spec fn holds(tasks: Seq<Option<ThreadRes>>, j: int, id: usize) -> bool {
    0 <= j < tasks.len() && tasks[j] is Some && tasks[j].unwrap().res_holding@.contains(id)
}

/// Mutual exclusion on mutex `id`: at most one thread holds it, that thread
/// holds it once, and only while the mutex is locked.
pub open spec fn mutex_exclusive(p: ProcessSync, id: usize) -> bool {
    &&& id < p.mutex_list@.len()
    &&& p.mutex_list@[id as int] is Some
    &&& forall|j: int, k: int| holds(p.tasks@, j, id) && holds(p.tasks@, k, id) ==> j == k
    &&& forall|j: int| holds(p.tasks@, j, id) ==> p.mutex_list@[id as int].unwrap().locked_flag()
    &&& forall|j: int| #[trigger] holds(p.tasks@, j, id) ==> !remove_first(p.tasks@[j].unwrap().res_holding@, id).contains(id)
}

/// A try-lock keeps mutual exclusion: it takes the mutex only when it is
/// free, so nobody else holds it.
pub proof fn lemma_try_lock_keeps_exclusion(p: ProcessSync, p2: ProcessSync, id: usize, cur: usize, r: TryStep)
    requires
        mutex_exclusive(p, id),
        cur < p.tasks@.len(),
        p.tasks@[cur as int] is Some,
        try_lock_effect(p, p2, id, cur, r),
    ensures
        mutex_exclusive(p2, id),
{
    let e = p.mutex_list@[id as int].unwrap();
    let t = p.tasks@[cur as int].unwrap();
    let t2 = p2.tasks@[cur as int].unwrap();
    assert forall|j: int| j != cur implies (holds(p2.tasks@, j, id) == holds(p.tasks@, j, id)) by {
        if 0 <= j < p2.tasks@.len() {
            assert(p2.tasks@[j] == p.tasks@[j]);
        }
    }
    if !e.locked_flag() {
        assert(!holds(p.tasks@, cur as int, id));
        assert(!t.res_holding@.contains(id));
        lemma_release_undoes_acquire(t.res_holding@, id);
        assert(t2.res_holding@[t.res_holding@.len() as int] == id);
        assert forall|j: int| holds(p2.tasks@, j, id) implies j == cur by {
            if j != cur {
                assert(holds(p.tasks@, j, id));
            }
        }
    } else {
        assert(holds(p2.tasks@, cur as int, id) == holds(p.tasks@, cur as int, id));
        assert forall|j: int| #[trigger] holds(p2.tasks@, j, id) implies !remove_first(p2.tasks@[j].unwrap().res_holding@, id).contains(id) by {
            assert(holds(p.tasks@, j, id));
            if j != cur {
                assert(p2.tasks@[j] == p.tasks@[j]);
            }
        }
    }
}

/// Releasing the mutex by its holder leaves nobody holding it.
pub proof fn lemma_unlock_mid_frees(p: ProcessSync, p2: ProcessSync, id: usize, cur: usize)
    requires
        mutex_exclusive(p, id),
        holds(p.tasks@, cur as int, id),
        p2.tasks@.len() == p.tasks@.len(),
        forall|j: int| 0 <= j < p2.tasks@.len() && j != cur ==> p2.tasks@[j] == p.tasks@[j],
        p2.tasks@[cur as int] is Some,
        p2.tasks@[cur as int].unwrap().res_holding@ == remove_first(p.tasks@[cur as int].unwrap().res_holding@, id),
    ensures
        forall|j: int| !holds(p2.tasks@, j, id),
{
    assert(!remove_first(p.tasks@[cur as int].unwrap().res_holding@, id).contains(id));
    assert forall|j: int| !holds(p2.tasks@, j, id) by {
        if j != cur && 0 <= j < p2.tasks@.len() {
            assert(p2.tasks@[j] == p.tasks@[j]);
            if holds(p.tasks@, j, id) {
                assert(holds(p.tasks@, cur as int, id));
            }
        }
    }
}

/// Completing a hand-over keeps mutual exclusion: the woken thread gets the
/// locked mutex that nobody holds.
pub proof fn lemma_resume_keeps_exclusion(p: ProcessSync, p2: ProcessSync, id: usize, cur: usize)
    requires
        id < p.mutex_list@.len(),
        p.mutex_list@[id as int] is Some,
        forall|j: int| !holds(p.tasks@, j, id),
        cur < p.tasks@.len(),
        p.tasks@[cur as int] is Some,
        p2.tasks@.len() == p.tasks@.len(),
        p2.mutex_list@.len() == p.mutex_list@.len(),
        p2.mutex_list@[id as int] is Some,
        p2.mutex_list@[id as int].unwrap().locked_flag(),
        forall|j: int| 0 <= j < p2.tasks@.len() && j != cur ==> p2.tasks@[j] == p.tasks@[j],
        p2.tasks@[cur as int] is Some,
        p2.tasks@[cur as int].unwrap().res_holding@ == p.tasks@[cur as int].unwrap().res_holding@.push(id),
    ensures
        mutex_exclusive(p2, id),
{
    let h = p.tasks@[cur as int].unwrap().res_holding@;
    assert(!holds(p.tasks@, cur as int, id));
    lemma_release_undoes_acquire(h, id);
    assert forall|j: int| holds(p2.tasks@, j, id) implies j == cur by {
        if j != cur {
            assert(p2.tasks@[j] == p.tasks@[j]);
            assert(holds(p.tasks@, j, id));
        }
    }
}

/// What completing a hand-over of blocking mutex `mutex_id` to the thread
/// in slot `cur` does, taking the process from `p` to `p2`: the thread now
/// holds the mutex and waits for nothing.
pub open spec fn resume_effect(p: ProcessSync, p2: ProcessSync, mutex_id: usize, cur: usize) -> bool {
        let e = p.mutex_list@[mutex_id as int].unwrap();
        let t = p.tasks@[cur as int].unwrap();
        let e2 = p2.mutex_list@[mutex_id as int].unwrap();
        let t2 = p2.tasks@[cur as int].unwrap();
        &&& p2.mutex_list@.len() == p.mutex_list@.len()
        &&& p2.tasks@.len() == p.tasks@.len()
        &&& forall|j: int| 0 <= j < p2.mutex_list@.len() && j != mutex_id
            ==> p2.mutex_list@[j] == p.mutex_list@[j]
        &&& forall|j: int| 0 <= j < p2.tasks@.len() && j != cur
            ==> p2.tasks@[j] == p.tasks@[j]
        &&& p2.semaphore_list@ == p.semaphore_list@
        &&& p2.mutex_list@[mutex_id as int] is Some
        &&& p2.tasks@[cur as int] is Some
        &&& !e2.is_spin()
        &&& e.wf() ==> e2.wf()
        &&& e2.locked_flag() == e.locked_flag()
        &&& e2.used_flag()
        &&& e2.waiters() == e.waiters()
        &&& t2.tid == t.tid
        &&& t2.res_holding@ == t.res_holding@.push(mutex_id)
        &&& t2.res_earning is None
}

/// What releasing mutex `mutex_id` by the thread in slot `cur` does, taking
/// the process from `p` to `p2` and waking `woken`: the mutex is no longer
/// used and leaves the thread's holdings; the first waiter, if any, is woken
/// with the mutex handed over (it stays locked), otherwise it is unlocked.
pub open spec fn unlock_mid_effect(p: ProcessSync, p2: ProcessSync, mutex_id: usize, cur: usize, woken: Option<usize>) -> bool {
    let e = p.mutex_list@[mutex_id as int].unwrap();
    let t = p.tasks@[cur as int].unwrap();
    let e2 = p2.mutex_list@[mutex_id as int].unwrap();
    let t2 = p2.tasks@[cur as int].unwrap();
    &&& p2.mutex_list@.len() == p.mutex_list@.len()
    &&& p2.tasks@.len() == p.tasks@.len()
    &&& forall|j: int| 0 <= j < p2.mutex_list@.len() && j != mutex_id
        ==> p2.mutex_list@[j] == p.mutex_list@[j]
    &&& forall|j: int| 0 <= j < p2.tasks@.len() && j != cur
        ==> p2.tasks@[j] == p.tasks@[j]
    &&& p2.semaphore_list@ == p.semaphore_list@
    &&& p2.mutex_list@[mutex_id as int] is Some
    &&& p2.tasks@[cur as int] is Some
    &&& e2.is_spin() == e.is_spin()
    &&& !e2.used_flag()
    &&& if e.waiters().len() > 0 {
        &&& woken == Some(e.waiters()[0])
        &&& e2.waiters() == e.waiters().drop_first()
        &&& e2.locked_flag()
    } else {
        &&& woken is None
        &&& e2.waiters() == e.waiters()
        &&& !e2.locked_flag()
    }
    &&& t2.tid == t.tid
    &&& t2.res_holding@ == remove_first(t.res_holding@, mutex_id)
    &&& t2.res_earning == t.res_earning
}

/// A step of the lock protocol on mutex `id`.
pub ghost enum MutexOp {
    /// The thread in slot `cur` tries to take the mutex, with result `r`.
    TryLock { cur: usize, r: TryStep },
    /// The thread in slot `cur`, which holds the mutex, releases it, waking `woken`.
    UnlockMid { cur: usize, woken: Option<usize> },
    /// The thread in slot `cur`, woken with the mutex handed over to it,
    /// completes its try-lock: the mutex is locked and nobody holds it.
    Resume { cur: usize },
}

/// `op` takes the process from `p` to `p2`.
pub open spec fn mutex_step(p: ProcessSync, p2: ProcessSync, id: usize, op: MutexOp) -> bool {
    match op {
        MutexOp::TryLock { cur, r } => {
            &&& cur < p.tasks@.len()
            &&& p.tasks@[cur as int] is Some
            &&& try_lock_effect(p, p2, id, cur, r)
        },
        MutexOp::UnlockMid { cur, woken } => {
            &&& holds(p.tasks@, cur as int, id)
            &&& unlock_mid_effect(p, p2, id, cur, woken)
        },
        MutexOp::Resume { cur } => {
            &&& id < p.mutex_list@.len()
            &&& p.mutex_list@[id as int] is Some
            &&& p.mutex_list@[id as int].unwrap().locked_flag()
            &&& forall|j: int| !holds(p.tasks@, j, id)
            &&& cur < p.tasks@.len()
            &&& p.tasks@[cur as int] is Some
            &&& resume_effect(p, p2, id, cur)
        },
    }
}

proof fn lemma_step_keeps_exclusion(p: ProcessSync, p2: ProcessSync, id: usize, op: MutexOp)
    requires
        mutex_exclusive(p, id),
        mutex_step(p, p2, id, op),
    ensures
        mutex_exclusive(p2, id),
{
    match op {
        MutexOp::TryLock { cur, r } => {
            lemma_try_lock_keeps_exclusion(p, p2, id, cur, r);
        },
        MutexOp::UnlockMid { cur, woken } => {
            lemma_unlock_mid_frees(p, p2, id, cur);
        },
        MutexOp::Resume { cur } => {
            lemma_resume_keeps_exclusion(p, p2, id, cur);
        },
    }
}

proof fn lemma_exclusion_prefix(trace: Seq<ProcessSync>, ops: Seq<MutexOp>, id: usize, k: int)
    requires
        trace.len() == ops.len() + 1,
        mutex_exclusive(trace[0], id),
        forall|i: int| 0 <= i < ops.len() ==> mutex_step(#[trigger] trace[i], trace[i + 1], id, ops[i]),
        0 <= k < trace.len(),
    ensures
        mutex_exclusive(trace[k], id),
    decreases k,
{
    if k > 0 {
        lemma_exclusion_prefix(trace, ops, id, k - 1);
        assert(mutex_step(trace[k - 1], trace[k], id, ops[k - 1]));
        lemma_step_keeps_exclusion(trace[k - 1], trace[k], id, ops[k - 1]);
    }
}

/// Mutual exclusion over any run of the lock protocol: starting from a mutex
/// nobody holds (such as a new one), through any interleaving of try-locks,
/// releases by the holder and completed hand-overs, at every point at most
/// one thread holds the mutex, once, and only while it is locked.
pub proof fn lemma_mutex_exclusion_over_trace(trace: Seq<ProcessSync>, ops: Seq<MutexOp>, id: usize)
    requires
        trace.len() == ops.len() + 1,
        id < trace[0].mutex_list@.len(),
        trace[0].mutex_list@[id as int] is Some,
        forall|j: int| !holds(trace[0].tasks@, j, id),
        forall|i: int| 0 <= i < ops.len() ==> mutex_step(#[trigger] trace[i], trace[i + 1], id, ops[i]),
    ensures
        forall|k: int| 0 <= k < trace.len() ==> mutex_exclusive(#[trigger] trace[k], id),
{
    assert forall|k: int| 0 <= k < trace.len() implies mutex_exclusive(#[trigger] trace[k], id) by {
        lemma_exclusion_prefix(trace, ops, id, k);
    }
}

impl ProcessSync {
    /// References to the threads of the thread table, in slot order.
    pub fn living_tasks(&self) -> (r: Vec<&ThreadRes>)
        ensures
            deref_all(r@) == living(self.tasks@),
    {
        let mut living_tasks: Vec<&ThreadRes> = Vec::new();
        let mut k: usize = 0;
        while k < self.tasks.len()
            invariant
                k <= self.tasks.len(),
                deref_all(living_tasks@) == living(self.tasks@.take(k as int)),
            decreases self.tasks.len() - k,
        {
            assert(self.tasks@.take(k as int + 1).drop_last() =~= self.tasks@.take(k as int));
            match &self.tasks[k] {
                Some(task) => {
                    living_tasks.push(task);
                },
                None => {},
            }
            assert(deref_all(living_tasks@) =~= living(self.tasks@.take(k as int + 1)));
            k = k + 1;
        }
        assert(self.tasks@.take(self.tasks@.len() as int) =~= self.tasks@);
        living_tasks
    }

    /// Tries to take mutex `mutex_id` for the thread in slot `cur`. When the
    /// mutex is taken, the thread is marked as waiting for it and the
    /// deadlock detection is run on the process; without deadlock a thread
    /// on a spinlock is to retry, one on a blocking mutex joins its queue.
    pub(crate) fn try_lock_mutex(&mut self, mutex_id: usize, cur: usize) -> (r: TryStep)
        requires
            mutex_id < old(self).mutex_list.len(),
            old(self).mutex_list@[mutex_id as int] is Some,
            cur < old(self).tasks.len(),
            old(self).tasks@[cur as int] is Some,
        ensures
            try_lock_effect(*old(self), *final(self), mutex_id, cur, r),
    {
        let ghost old_tasks = self.tasks@;
        let entry = self.mutex_list.remove(mutex_id).unwrap();
        let mut task = self.tasks.remove(cur).unwrap();
        let ghost t0 = task;
        let (acquired, spin) = match entry {
            MutexEntry::Spin(mut m) => {
                let a = m.take_or_mark(mutex_id, &mut task);
                self.mutex_list.insert(mutex_id, Some(MutexEntry::Spin(m)));
                (a, true)
            },
            MutexEntry::Blocking(mut m) => {
                let a = m.take_or_mark(mutex_id, &mut task);
                self.mutex_list.insert(mutex_id, Some(MutexEntry::Blocking(m)));
                (a, false)
            },
        };
        let tid = task.tid;
        self.tasks.insert(cur, Some(task));
        assert(self.mutex_list@ =~= old(self).mutex_list@.update(mutex_id as int, self.mutex_list@[mutex_id as int]));
        assert(self.tasks@ =~= old_tasks.update(cur as int, Some(task)));
        if acquired {
            return TryStep::Acquired;
        }
        proof {
            lemma_free_mutex_ids_same(self.mutex_list@, old(self).mutex_list@, self.mutex_list@.len());
        }
        let living_tasks = self.living_tasks();
        if check_deadlock_ok(living_tasks, self, true) {
            if spin {
                TryStep::Retry
            } else {
                let entry = self.mutex_list.remove(mutex_id).unwrap();
                match entry {
                    MutexEntry::Spin(m) => {
                        self.mutex_list.insert(mutex_id, Some(MutexEntry::Spin(m)));
                    },
                    MutexEntry::Blocking(mut m) => {
                        m.wait(tid);
                        self.mutex_list.insert(mutex_id, Some(MutexEntry::Blocking(m)));
                    },
                }
                assert(self.mutex_list@ =~= old(self).mutex_list@.update(mutex_id as int, self.mutex_list@[mutex_id as int]));
                TryStep::Blocked
            }
        } else {
            TryStep::Deadlock
        }
    }

    /// Releases mutex `mutex_id` held by the thread in slot `cur`; returns
    /// the thread to wake, to which the mutex is handed over, if any.
    pub fn mutex_unlock_mid(&mut self, mutex_id: usize, cur: usize) -> (woken: Option<usize>)
        requires
            mutex_id < old(self).mutex_list.len(),
            old(self).mutex_list@[mutex_id as int] is Some,
            old(self).mutex_list@[mutex_id as int].unwrap().is_spin()
                || old(self).mutex_list@[mutex_id as int].unwrap().locked_flag(),
            cur < old(self).tasks.len(),
            old(self).tasks@[cur as int] is Some,
        ensures
            unlock_mid_effect(*old(self), *final(self), mutex_id, cur, woken),
            ({
                let e = old(self).mutex_list@[mutex_id as int].unwrap();
                e.wf() ==> final(self).mutex_list@[mutex_id as int].unwrap().wf()
            }),
    {
        let ghost old_tasks = self.tasks@;
        let entry = self.mutex_list.remove(mutex_id).unwrap();
        let mut task = self.tasks.remove(cur).unwrap();
        let woken = match entry {
            MutexEntry::Spin(mut m) => {
                let w = m.unlock_mid(mutex_id, &mut task);
                self.mutex_list.insert(mutex_id, Some(MutexEntry::Spin(m)));
                w
            },
            MutexEntry::Blocking(mut m) => {
                let w = m.unlock_mid(mutex_id, &mut task);
                self.mutex_list.insert(mutex_id, Some(MutexEntry::Blocking(m)));
                w
            },
        };
        self.tasks.insert(cur, Some(task));
        assert(self.mutex_list@ =~= old(self).mutex_list@.update(mutex_id as int, self.mutex_list@[mutex_id as int]));
        assert(self.tasks@ =~= old_tasks.update(cur as int, Some(task)));
        woken
    }

    /// Completes a `Mutex::try_lock` that returned `Blocked`, once the thread
    /// in slot `cur` has been woken with the lock handed over to it: the
    /// thread now holds the lock and waits for nothing.
    pub fn mutex_resume(&mut self, mutex_id: usize, cur: usize)
        requires
            mutex_id < old(self).mutex_list.len(),
            old(self).mutex_list@[mutex_id as int] is Some,
            !old(self).mutex_list@[mutex_id as int].unwrap().is_spin(),
            cur < old(self).tasks.len(),
            old(self).tasks@[cur as int] is Some,
        ensures
            resume_effect(*old(self), *final(self), mutex_id, cur),
    {
        let ghost old_tasks = self.tasks@;
        let entry = self.mutex_list.remove(mutex_id).unwrap();
        let mut task = self.tasks.remove(cur).unwrap();
        match entry {
            MutexEntry::Spin(m) => {
                self.mutex_list.insert(mutex_id, Some(MutexEntry::Spin(m)));
            },
            MutexEntry::Blocking(mut m) => {
                m.finish_wait(mutex_id, &mut task);
                self.mutex_list.insert(mutex_id, Some(MutexEntry::Blocking(m)));
            },
        }
        self.tasks.insert(cur, Some(task));
        assert(self.mutex_list@ =~= old(self).mutex_list@.update(mutex_id as int, self.mutex_list@[mutex_id as int]));
        assert(self.tasks@ =~= old_tasks.update(cur as int, Some(task)));
    }

    /// Tries to take a unit of semaphore `sem_id` for the thread in slot
    /// `cur`. The count goes down in any case; when no unit is free, the
    /// thread is marked as waiting for the semaphore and the deadlock
    /// detection is run on the process; without deadlock the thread joins
    /// the semaphore's queue.
    pub(crate) fn try_down_semaphore(&mut self, sem_id: usize, cur: usize) -> (r: TryStep)
        requires
            sem_id < old(self).semaphore_list.len(),
            old(self).semaphore_list@[sem_id as int] is Some,
            old(self).semaphore_list@[sem_id as int].unwrap().inner.count > isize::MIN,
            cur < old(self).tasks.len(),
            old(self).tasks@[cur as int] is Some,
        ensures
            try_down_effect(*old(self), *final(self), sem_id, cur, r),
    {
        let ghost old_tasks = self.tasks@;
        let mut sem = self.semaphore_list.remove(sem_id).unwrap();
        let mut task = self.tasks.remove(cur).unwrap();
        let acquired = sem.take_or_mark(sem_id, &mut task);
        let tid = task.tid;
        self.semaphore_list.insert(sem_id, Some(sem));
        self.tasks.insert(cur, Some(task));
        assert(self.semaphore_list@ =~= old(self).semaphore_list@.update(sem_id as int, Some(sem)));
        assert(self.tasks@ =~= old_tasks.update(cur as int, Some(task)));
        if acquired {
            return TryStep::Acquired;
        }
        let ghost checked = self.semaphore_list@;
        let living_tasks = self.living_tasks();
        if check_deadlock_ok(living_tasks, self, false) {
            let mut sem = self.semaphore_list.remove(sem_id).unwrap();
            sem.wait(tid);
            self.semaphore_list.insert(sem_id, Some(sem));
            assert(self.semaphore_list@ =~= checked.update(sem_id as int, Some(sem)));
            proof {
                lemma_free_semaphore_ids_same(self.semaphore_list@, checked, checked.len());
            }
            TryStep::Blocked
        } else {
            TryStep::Deadlock
        }
    }

    /// Completes a `Semaphore::try_down` that returned `Blocked`, once the
    /// thread in slot `cur` has been woken with a unit handed to it: the
    /// thread now holds the unit and waits for nothing.
    pub fn semaphore_resume(&mut self, sem_id: usize, cur: usize)
        requires
            sem_id < old(self).semaphore_list.len(),
            old(self).semaphore_list@[sem_id as int] is Some,
            old(self).semaphore_list@[sem_id as int].unwrap().inner.unused_cnt > 0,
            cur < old(self).tasks.len(),
            old(self).tasks@[cur as int] is Some,
        ensures
            ({
                let s = old(self).semaphore_list@[sem_id as int].unwrap();
                let t = old(self).tasks@[cur as int].unwrap();
                let s2 = final(self).semaphore_list@[sem_id as int].unwrap();
                let t2 = final(self).tasks@[cur as int].unwrap();
                &&& final(self).semaphore_list@.len() == old(self).semaphore_list@.len()
                &&& final(self).tasks@.len() == old(self).tasks@.len()
                &&& forall|j: int| 0 <= j < final(self).semaphore_list@.len() && j != sem_id
                    ==> final(self).semaphore_list@[j] == old(self).semaphore_list@[j]
                &&& forall|j: int| 0 <= j < final(self).tasks@.len() && j != cur
                    ==> final(self).tasks@[j] == old(self).tasks@[j]
                &&& final(self).mutex_list@ == old(self).mutex_list@
                &&& final(self).semaphore_list@[sem_id as int] is Some
                &&& final(self).tasks@[cur as int] is Some
                &&& s2.inner.count == s.inner.count
                &&& s2.inner.unused_cnt == s.inner.unused_cnt - 1
                &&& s2.inner.wait_queue@ == s.inner.wait_queue@
                &&& t2.tid == t.tid
                &&& t2.res_holding@ == t.res_holding@.push(sem_id)
                &&& t2.res_earning is None
            }),
    {
        let ghost old_tasks = self.tasks@;
        let mut sem = self.semaphore_list.remove(sem_id).unwrap();
        let mut task = self.tasks.remove(cur).unwrap();
        sem.finish_wait(sem_id, &mut task);
        self.semaphore_list.insert(sem_id, Some(sem));
        self.tasks.insert(cur, Some(task));
        assert(self.semaphore_list@ =~= old(self).semaphore_list@.update(sem_id as int, Some(sem)));
        assert(self.tasks@ =~= old_tasks.update(cur as int, Some(task)));
    }
}

/// `s` with the first occurrence of `x` taken out (unchanged when `x` is absent).
pub open spec fn remove_first(s: Seq<usize>, x: usize) -> Seq<usize>
    decreases s.len(),
{
    if s.len() == 0 {
        s
    } else if s[0] == x {
        s.drop_first()
    } else {
        seq![s[0]] + remove_first(s.drop_first(), x)
    }
}

/// Removing the first occurrence at a known index.
pub proof fn lemma_remove_first_at(s: Seq<usize>, x: usize, i: int)
    requires
        0 <= i < s.len(),
        s[i] == x,
        forall|j: int| 0 <= j < i ==> s[j] != x,
    ensures
        remove_first(s, x) == s.remove(i),
    decreases s.len(),
{
    if i == 0 {
        assert(s.drop_first() =~= s.remove(0));
    } else {
        lemma_remove_first_at(s.drop_first(), x, i - 1);
        assert(seq![s[0]] + s.drop_first().remove(i - 1) =~= s.remove(i));
    }
}

/// Removing an absent value changes nothing.
pub proof fn lemma_remove_first_absent(s: Seq<usize>, x: usize)
    requires
        !s.contains(x),
    ensures
        remove_first(s, x) == s,
    decreases s.len(),
{
    if s.len() > 0 {
        assert(!s.drop_first().contains(x)) by {
            if s.drop_first().contains(x) {
                let j = choose|j: int| 0 <= j < s.drop_first().len() && s.drop_first()[j] == x;
                assert(s[j + 1] == x);
            }
        }
        lemma_remove_first_absent(s.drop_first(), x);
        assert(s[0] != x);
        assert(seq![s[0]] + s.drop_first() =~= s);
    }
}

/// Releasing a resource right after taking it gives back the holdings the
/// thread had, when it did not hold that resource already.
pub proof fn lemma_release_undoes_acquire(s: Seq<usize>, x: usize)
    requires
        !s.contains(x),
    ensures
        remove_first(s.push(x), x) == s,
{
    lemma_remove_first_at(s.push(x), x, s.len() as int);
    assert(s.push(x).remove(s.len() as int) =~= s);
}

/// Takes the first occurrence of `id` out of `holding`.
pub fn remove_first_occurrence(holding: &mut Vec<usize>, id: usize)
    ensures
        final(holding)@ == remove_first(old(holding)@, id),
{
    let mut i: usize = 0;
    while i < holding.len()
        invariant
            i <= holding.len(),
            holding@ == old(holding)@,
            forall|j: int| 0 <= j < i ==> holding@[j] != id,
        decreases holding.len() - i,
    {
        if holding[i] == id {
            proof {
                lemma_remove_first_at(holding@, id, i as int);
            }
            holding.remove(i);
            return;
        }
        i = i + 1;
    }
    proof {
        lemma_remove_first_absent(holding@, id);
    }
}

} // verus!
