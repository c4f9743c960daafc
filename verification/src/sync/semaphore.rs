//! Counting semaphore with a FIFO wait queue.
use vstd::prelude::*;
use std::collections::VecDeque;
use crate::sync::{remove_first, remove_first_occurrence, try_down_effect, ProcessSync, ThreadRes, TryStep};

verus! {

/// State of a semaphore.
pub struct SemaphoreInner {
    /// Free units; when negative, minus the number of threads waiting.
    pub count: isize,
    /// Threads blocked on the semaphore, first to be woken at the front.
    pub wait_queue: VecDeque<usize>,
    /// Units handed to woken threads that have not yet taken them up.
    pub unused_cnt: usize,
}

/// Counting semaphore.
pub struct Semaphore {
    pub inner: SemaphoreInner,
}

/// The number of threads that should be waiting for a given count.
pub open spec fn waiters_for(count: isize) -> int {
    if count < 0 { -count } else { 0 }
}

impl Semaphore {
    /// The wait queue holds exactly one thread per missing unit.
    pub open spec fn balanced(&self) -> bool {
        self.inner.wait_queue@.len() == waiters_for(self.inner.count)
    }

    /// Creates a semaphore with `res_count` units and nobody waiting.
    pub fn new(res_count: usize) -> (s: Self)
        ensures
            s.inner.count == res_count as isize,
            s.inner.wait_queue@ == Seq::<usize>::empty(),
            s.inner.unused_cnt == 0,
            res_count <= isize::MAX ==> s.balanced(),
    {
        Semaphore {
            inner: SemaphoreInner {
                count: res_count as isize,
                wait_queue: VecDeque::new(),
                unused_cnt: 0,
            },
        }
    }

    /// Gives a unit back; returns the thread to wake, if any.
    pub fn up(&mut self) -> (woken: Option<usize>)
        requires
            old(self).inner.count < isize::MAX,
        ensures
            final(self).inner.count == old(self).inner.count + 1,
            final(self).inner.unused_cnt == old(self).inner.unused_cnt,
            final(self).inner.count <= 0 && old(self).inner.wait_queue@.len() > 0 ==> {
                &&& woken == Some(old(self).inner.wait_queue@[0])
                &&& final(self).inner.wait_queue@ == old(self).inner.wait_queue@.drop_first()
            },
            !(final(self).inner.count <= 0 && old(self).inner.wait_queue@.len() > 0) ==> {
                &&& woken is None
                &&& final(self).inner.wait_queue@ == old(self).inner.wait_queue@
            },
            old(self).balanced() ==> final(self).balanced(),
    {
        self.inner.count = self.inner.count + 1;
        if self.inner.count <= 0 {
            if let Some(task) = self.inner.wait_queue.pop_front() {
                return Some(task);
            }
        }
        None
    }

    /// Gives back the unit `sem_id` held by `cur`; returns the thread to wake,
    /// if any, whose unit is then counted as not yet taken up.
    pub fn up_semid(&mut self, sem_id: usize, cur: &mut ThreadRes) -> (woken: Option<usize>)
        requires
            old(self).inner.count < isize::MAX,
            old(self).inner.count + 1 <= 0 && old(self).inner.wait_queue@.len() > 0 ==> old(self).inner.unused_cnt < usize::MAX,
        ensures
            final(self).inner.count == old(self).inner.count + 1,
            final(cur).tid == old(cur).tid,
            final(cur).res_holding@ == remove_first(old(cur).res_holding@, sem_id),
            final(cur).res_earning == old(cur).res_earning,
            final(self).inner.count <= 0 && old(self).inner.wait_queue@.len() > 0 ==> {
                &&& woken == Some(old(self).inner.wait_queue@[0])
                &&& final(self).inner.wait_queue@ == old(self).inner.wait_queue@.drop_first()
                &&& final(self).inner.unused_cnt == old(self).inner.unused_cnt + 1
            },
            !(final(self).inner.count <= 0 && old(self).inner.wait_queue@.len() > 0) ==> {
                &&& woken is None
                &&& final(self).inner.wait_queue@ == old(self).inner.wait_queue@
                &&& final(self).inner.unused_cnt == old(self).inner.unused_cnt
            },
            old(self).balanced() ==> final(self).balanced(),
    {
        self.inner.count = self.inner.count + 1;
        remove_first_occurrence(&mut cur.res_holding, sem_id);
        if self.inner.count <= 0 {
            if let Some(task) = self.inner.wait_queue.pop_front() {
                self.inner.unused_cnt = self.inner.unused_cnt + 1;
                return Some(task);
            }
        }
        None
    }

    /// Takes a unit for thread `tid`; `true` when the thread was queued and
    /// has to block until an `up` wakes it.
    pub fn down(&mut self, tid: usize) -> (must_block: bool)
        requires
            old(self).inner.count > isize::MIN,
        ensures
            final(self).inner.count == old(self).inner.count - 1,
            final(self).inner.unused_cnt == old(self).inner.unused_cnt,
            must_block == (final(self).inner.count < 0),
            must_block ==> final(self).inner.wait_queue@ == old(self).inner.wait_queue@.push(tid),
            !must_block ==> final(self).inner.wait_queue@ == old(self).inner.wait_queue@,
            old(self).balanced() ==> final(self).balanced(),
    {
        self.inner.count = self.inner.count - 1;
        if self.inner.count < 0 {
            self.inner.wait_queue.push_back(tid);
            true
        } else {
            false
        }
    }

    /// Takes a unit of semaphore `sem_id` of `process` for the thread in
    /// slot `cur`, with deadlock detection (see `try_down_effect`):
    /// `Acquired` (returns 0), `Blocked` (queued; block, and once woken
    /// `ProcessSync::semaphore_resume` completes the call, which returns 0)
    /// or `Deadlock` (returns `DEADLOCK_CODE`; the count stays decremented).
    pub fn try_down(process: &mut ProcessSync, sem_id: usize, cur: usize) -> (r: TryStep)
        requires
            sem_id < old(process).semaphore_list.len(),
            old(process).semaphore_list@[sem_id as int] is Some,
            old(process).semaphore_list@[sem_id as int].unwrap().inner.count > isize::MIN,
            cur < old(process).tasks.len(),
            old(process).tasks@[cur as int] is Some,
        ensures
            try_down_effect(*old(process), *final(process), sem_id, cur, r),
    {
        process.try_down_semaphore(sem_id, cur)
    }

    /// The semaphore's own part of `try_down`: takes a unit `sem_id` for
    /// `cur`, recording it among the thread's holdings when one is free;
    /// otherwise marks the thread as waiting for it and returns `false` (the
    /// count stays decremented).
    pub fn take_or_mark(&mut self, sem_id: usize, cur: &mut ThreadRes) -> (acquired: bool)
        requires
            old(self).inner.count > isize::MIN,
        ensures
            final(self).inner.count == old(self).inner.count - 1,
            final(self).inner.wait_queue@ == old(self).inner.wait_queue@,
            final(self).inner.unused_cnt == old(self).inner.unused_cnt,
            acquired == (final(self).inner.count >= 0),
            final(cur).tid == old(cur).tid,
            acquired ==> {
                &&& final(cur).res_holding@ == old(cur).res_holding@.push(sem_id)
                &&& final(cur).res_earning == old(cur).res_earning
            },
            !acquired ==> {
                &&& final(cur).res_holding@ == old(cur).res_holding@
                &&& final(cur).res_earning == Some(sem_id)
            },
            old(self).balanced() && acquired ==> final(self).balanced(),
    {
        self.inner.count = self.inner.count - 1;
        if self.inner.count < 0 {
            cur.res_earning = Some(sem_id);
            false
        } else {
            cur.res_holding.push(sem_id);
            true
        }
    }

    /// Puts `tid` at the back of the wait queue, after `try_down` found no
    /// free unit and no deadlock was detected.
    pub fn wait(&mut self, tid: usize)
        ensures
            final(self).inner.count == old(self).inner.count,
            final(self).inner.unused_cnt == old(self).inner.unused_cnt,
            final(self).inner.wait_queue@ == old(self).inner.wait_queue@.push(tid),
    {
        self.inner.wait_queue.push_back(tid);
    }

    /// Completes a `try_down` that waited, once the thread has been woken
    /// with a unit handed to it.
    pub fn finish_wait(&mut self, sem_id: usize, cur: &mut ThreadRes)
        requires
            old(self).inner.unused_cnt > 0,
        ensures
            final(self).inner.count == old(self).inner.count,
            final(self).inner.wait_queue@ == old(self).inner.wait_queue@,
            final(self).inner.unused_cnt == old(self).inner.unused_cnt - 1,
            final(cur).tid == old(cur).tid,
            final(cur).res_holding@ == old(cur).res_holding@.push(sem_id),
            final(cur).res_earning is None,
    {
        cur.res_holding.push(sem_id);
        cur.res_earning = None;
        self.inner.unused_cnt = self.inner.unused_cnt - 1;
    }
}

/// A step on a semaphore.
pub ghost enum SemOp {
    /// `up`.
    Up,
    /// `up_semid`, waking `woken`.
    UpSemid { woken: Option<usize> },
    /// `down`.
    Down,
    /// `try_down` (or its own part, `take_or_mark`, and `wait`).
    TryDown,
    /// The completion of a `try_down` by a woken thread (`finish_wait`,
    /// `ProcessSync::semaphore_resume`).
    Resume,
}

/// `op` takes the semaphore from `s` to `s2`, as far as handed-over units go.
pub open spec fn sem_step(s: Semaphore, s2: Semaphore, op: SemOp) -> bool {
    match op {
        SemOp::UpSemid { woken } => s2.inner.unused_cnt == s.inner.unused_cnt + (if woken is Some { 1int } else { 0int }),
        SemOp::Resume => s2.inner.unused_cnt + 1 == s.inner.unused_cnt,
        _ => s2.inner.unused_cnt == s.inner.unused_cnt,
    }
}

/// How many threads the `up_semid` steps of `ops` woke.
pub open spec fn woken_count(ops: Seq<SemOp>) -> int
    decreases ops.len(),
{
    if ops.len() == 0 {
        0
    } else {
        woken_count(ops.drop_last()) + match ops.last() {
            SemOp::UpSemid { woken } => if woken is Some { 1int } else { 0int },
            _ => 0int,
        }
    }
}

/// How many woken threads completed their `try_down` in `ops`.
pub open spec fn resumed_count(ops: Seq<SemOp>) -> int
    decreases ops.len(),
{
    if ops.len() == 0 {
        0
    } else {
        resumed_count(ops.drop_last()) + if ops.last() is Resume { 1int } else { 0int }
    }
}

proof fn lemma_unused_prefix(trace: Seq<Semaphore>, ops: Seq<SemOp>, k: int)
    requires
        trace.len() == ops.len() + 1,
        trace[0].inner.unused_cnt == 0,
        forall|i: int| 0 <= i < ops.len() ==> sem_step(#[trigger] trace[i], trace[i + 1], ops[i]),
        0 <= k < trace.len(),
    ensures
        trace[k].inner.unused_cnt == woken_count(ops.take(k)) - resumed_count(ops.take(k)),
    decreases k,
{
    if k > 0 {
        lemma_unused_prefix(trace, ops, k - 1);
        assert(ops.take(k).drop_last() =~= ops.take(k - 1));
        assert(ops.take(k).last() == ops[k - 1]);
        assert(sem_step(trace[k - 1], trace[k], ops[k - 1]));
    }
}

/// Hand-over accounting: starting from a semaphore with no unit handed over
/// (such as a new one), along any run of its operations, the units handed
/// over but not yet taken up are the threads woken by `up_semid` that have
/// not yet completed their `try_down`.
pub proof fn lemma_unused_counts_woken_not_resumed(trace: Seq<Semaphore>, ops: Seq<SemOp>)
    requires
        trace.len() == ops.len() + 1,
        trace[0].inner.unused_cnt == 0,
        forall|i: int| 0 <= i < ops.len() ==> sem_step(#[trigger] trace[i], trace[i + 1], ops[i]),
    ensures
        forall|k: int| 0 <= k < trace.len() ==>
            (#[trigger] trace[k]).inner.unused_cnt == woken_count(ops.take(k)) - resumed_count(ops.take(k)),
{
    assert forall|k: int| 0 <= k < trace.len() implies
        (#[trigger] trace[k]).inner.unused_cnt == woken_count(ops.take(k)) - resumed_count(ops.take(k)) by {
        lemma_unused_prefix(trace, ops, k);
    }
}

} // verus!
