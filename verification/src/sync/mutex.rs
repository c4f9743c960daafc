//! Mutexes: a spinning one and a blocking one with a FIFO wait queue.
use vstd::prelude::*;
use std::collections::VecDeque;
use crate::sync::{remove_first, remove_first_occurrence, try_lock_effect, ProcessSync, ThreadRes, TryStep};

verus! {

/// Operations common to both mutexes. A call that cannot take the lock does
/// not wait itself: it says so in its result, and the scheduler suspends or
/// blocks the calling thread.
pub trait Mutex {
    /// Whether `unlock` may be called in this state.
    spec fn unlock_allowed(&self) -> bool;

    /// Takes the lock for thread `tid`; `false` when the thread has to wait.
    fn lock(&mut self, tid: usize) -> (acquired: bool);

    /// Releases the lock; returns the thread to wake, if any.
    fn unlock(&mut self) -> (woken: Option<usize>)
        requires
            old(self).unlock_allowed(),
    ;

    /// Whether a mutex table entry is a mutex of this kind.
    spec fn is_kind_of(entry: MutexEntry) -> bool;

    /// Tries to take the mutex `mutex_id` of `process`, of this kind, for the
    /// thread in slot `cur`, with deadlock detection (see `try_lock_effect`):
    /// `Acquired` (returns 0), `Retry` (suspend, then call again), `Blocked`
    /// (queued; block, and once woken `ProcessSync::mutex_resume` completes
    /// the call, which returns 0) or `Deadlock` (returns `DEADLOCK_CODE`).
    fn try_lock(process: &mut ProcessSync, mutex_id: usize, cur: usize) -> (r: TryStep)
        requires
            mutex_id < old(process).mutex_list.len(),
            old(process).mutex_list@[mutex_id as int] is Some,
            Self::is_kind_of(old(process).mutex_list@[mutex_id as int].unwrap()),
            cur < old(process).tasks.len(),
            old(process).tasks@[cur as int] is Some,
        ensures
            try_lock_effect(*old(process), *final(process), mutex_id, cur, r),
    ;

    /// Releases the lock `mutex_id` held by `cur`; returns the thread to wake, if any.
    fn unlock_mid(&mut self, mutex_id: usize, cur: &mut ThreadRes) -> (woken: Option<usize>)
        requires
            old(self).unlock_allowed(),
    ;

    /// Whether some thread holds the lock through `try_lock`.
    fn is_used(&self) -> (used: bool);
}

/// Spinlock mutex: a thread that finds it locked yields and tries again.
pub struct MutexSpin {
    pub locked: bool,
    pub used: bool,
}

impl MutexSpin {
    /// Creates an unlocked, unused spinlock.
    pub fn new() -> (m: Self)
        ensures
            !m.locked,
            !m.used,
    {
        MutexSpin { locked: false, used: false }
    }
}

impl MutexSpin {
    /// The mutex's own part of `try_lock`: takes it for `cur`, recording it
    /// among the thread's holdings, when it is free; otherwise marks the
    /// thread as waiting for it.
    pub fn take_or_mark(&mut self, mutex_id: usize, cur: &mut ThreadRes) -> (acquired: bool)
        ensures
            acquired == !old(self).locked,
            final(cur).tid == old(cur).tid,
            acquired ==> {
                &&& final(self).locked && final(self).used
                &&& final(cur).res_holding@ == old(cur).res_holding@.push(mutex_id)
                &&& final(cur).res_earning is None
            },
            !acquired ==> {
                &&& *final(self) == *old(self)
                &&& final(cur).res_holding@ == old(cur).res_holding@
                &&& final(cur).res_earning == Some(mutex_id)
            },
    {
        if self.locked {
            cur.res_earning = Some(mutex_id);
            false
        } else {
            self.locked = true;
            self.used = true;
            cur.res_holding.push(mutex_id);
            if cur.res_earning.is_some() {
                cur.res_earning = None;
            }
            true
        }
    }

}

impl Mutex for MutexSpin {
    open spec fn unlock_allowed(&self) -> bool {
        true
    }

    fn is_used(&self) -> (used: bool)
        ensures
            used == self.used,
    {
        self.used
    }

    fn lock(&mut self, tid: usize) -> (acquired: bool)
        ensures
            acquired == !old(self).locked,
            final(self).locked,
            final(self).used == old(self).used,
    {
        if self.locked {
            false
        } else {
            self.locked = true;
            true
        }
    }

    fn unlock(&mut self) -> (woken: Option<usize>)
        ensures
            woken is None,
            !final(self).locked,
            final(self).used == old(self).used,
    {
        self.locked = false;
        None
    }

    open spec fn is_kind_of(entry: MutexEntry) -> bool {
        entry is Spin
    }

    fn try_lock(process: &mut ProcessSync, mutex_id: usize, cur: usize) -> (r: TryStep) {
        process.try_lock_mutex(mutex_id, cur)
    }

    fn unlock_mid(&mut self, mutex_id: usize, cur: &mut ThreadRes) -> (woken: Option<usize>)
        ensures
            woken is None,
            !final(self).locked,
            !final(self).used,
            final(cur).tid == old(cur).tid,
            final(cur).res_holding@ == remove_first(old(cur).res_holding@, mutex_id),
            final(cur).res_earning == old(cur).res_earning,
    {
        remove_first_occurrence(&mut cur.res_holding, mutex_id);
        self.locked = false;
        self.used = false;
        None
    }
}

/// State of a blocking mutex.
pub struct MutexBlockingInner {
    pub locked: bool,
    /// Threads blocked on the mutex, first to be woken at the front.
    pub wait_queue: VecDeque<usize>,
    pub used: bool,
}

/// Blocking mutex: a thread that finds it locked sleeps in a FIFO queue, and
/// `unlock` hands the lock over to the first sleeper.
pub struct MutexBlocking {
    pub inner: MutexBlockingInner,
}

impl MutexBlocking {
    /// No thread waits on a free lock.
    pub open spec fn wf(&self) -> bool {
        self.inner.wait_queue@.len() > 0 ==> self.inner.locked
    }

    /// Creates an unlocked, unused blocking mutex with no waiter.
    pub fn new() -> (m: Self)
        ensures
            !m.inner.locked,
            !m.inner.used,
            m.inner.wait_queue@ == Seq::<usize>::empty(),
            m.wf(),
    {
        MutexBlocking {
            inner: MutexBlockingInner { locked: false, wait_queue: VecDeque::new(), used: false },
        }
    }

    /// The mutex's own part of `try_lock`: takes it for `cur`, recording it
    /// among the thread's holdings, when it is free; otherwise marks the
    /// thread as waiting for it.
    pub fn take_or_mark(&mut self, mutex_id: usize, cur: &mut ThreadRes) -> (acquired: bool)
        ensures
            acquired == !old(self).inner.locked,
            final(cur).tid == old(cur).tid,
            acquired ==> {
                &&& final(self).inner.locked && final(self).inner.used
                &&& final(self).inner.wait_queue@ == old(self).inner.wait_queue@
                &&& final(cur).res_holding@ == old(cur).res_holding@.push(mutex_id)
                &&& final(cur).res_earning == old(cur).res_earning
            },
            !acquired ==> {
                &&& final(self).inner.locked == old(self).inner.locked
                &&& final(self).inner.used == old(self).inner.used
                &&& final(self).inner.wait_queue@ == old(self).inner.wait_queue@
                &&& final(cur).res_holding@ == old(cur).res_holding@
                &&& final(cur).res_earning == Some(mutex_id)
            },
            old(self).wf() ==> final(self).wf(),
    {
        if self.inner.locked {
            cur.res_earning = Some(mutex_id);
            false
        } else {
            self.inner.locked = true;
            self.inner.used = true;
            cur.res_holding.push(mutex_id);
            true
        }
    }

    /// Puts `tid` at the back of the wait queue, after `try_lock` found the
    /// lock taken and no deadlock was detected.
    pub fn wait(&mut self, tid: usize)
        ensures
            final(self).inner.wait_queue@ == old(self).inner.wait_queue@.push(tid),
            final(self).inner.locked == old(self).inner.locked,
            final(self).inner.used == old(self).inner.used,
            old(self).inner.locked ==> final(self).wf(),
    {
        self.inner.wait_queue.push_back(tid);
    }

    /// Completes a `try_lock` that waited, once the thread has been woken with
    /// the lock handed over to it.
    pub fn finish_wait(&mut self, mutex_id: usize, cur: &mut ThreadRes)
        ensures
            final(self).inner.locked == old(self).inner.locked,
            final(self).inner.wait_queue@ == old(self).inner.wait_queue@,
            final(self).inner.used,
            final(cur).tid == old(cur).tid,
            final(cur).res_holding@ == old(cur).res_holding@.push(mutex_id),
            final(cur).res_earning is None,
            old(self).wf() ==> final(self).wf(),
    {
        cur.res_holding.push(mutex_id);
        cur.res_earning = None;
        self.inner.used = true;
    }
}

impl Mutex for MutexBlocking {
    open spec fn unlock_allowed(&self) -> bool {
        self.inner.locked
    }

    fn is_used(&self) -> (used: bool)
        ensures
            used == self.inner.used,
    {
        self.inner.used
    }

    fn lock(&mut self, tid: usize) -> (acquired: bool)
        ensures
            acquired == !old(self).inner.locked,
            final(self).inner.locked,
            final(self).inner.used == old(self).inner.used,
            acquired ==> final(self).inner.wait_queue@ == old(self).inner.wait_queue@,
            !acquired ==> final(self).inner.wait_queue@ == old(self).inner.wait_queue@.push(tid),
            final(self).wf(),
    {
        if self.inner.locked {
            self.inner.wait_queue.push_back(tid);
            false
        } else {
            self.inner.locked = true;
            true
        }
    }

    fn unlock(&mut self) -> (woken: Option<usize>)
        ensures
            final(self).inner.used == old(self).inner.used,
            old(self).inner.wait_queue@.len() > 0 ==> {
                &&& woken == Some(old(self).inner.wait_queue@[0])
                &&& final(self).inner.wait_queue@ == old(self).inner.wait_queue@.drop_first()
                &&& final(self).inner.locked
            },
            old(self).inner.wait_queue@.len() == 0 ==> {
                &&& woken is None
                &&& final(self).inner.wait_queue@ == old(self).inner.wait_queue@
                &&& !final(self).inner.locked
            },
            final(self).wf(),
    {
        if let Some(waking_task) = self.inner.wait_queue.pop_front() {
            Some(waking_task)
        } else {
            self.inner.locked = false;
            None
        }
    }

    open spec fn is_kind_of(entry: MutexEntry) -> bool {
        entry is Blocking
    }

    fn try_lock(process: &mut ProcessSync, mutex_id: usize, cur: usize) -> (r: TryStep) {
        process.try_lock_mutex(mutex_id, cur)
    }

    fn unlock_mid(&mut self, mutex_id: usize, cur: &mut ThreadRes) -> (woken: Option<usize>)
        ensures
            !final(self).inner.used,
            old(self).inner.wait_queue@.len() > 0 ==> {
                &&& woken == Some(old(self).inner.wait_queue@[0])
                &&& final(self).inner.wait_queue@ == old(self).inner.wait_queue@.drop_first()
                &&& final(self).inner.locked
            },
            old(self).inner.wait_queue@.len() == 0 ==> {
                &&& woken is None
                &&& final(self).inner.wait_queue@ == old(self).inner.wait_queue@
                &&& !final(self).inner.locked
            },
            final(cur).tid == old(cur).tid,
            final(cur).res_holding@ == remove_first(old(cur).res_holding@, mutex_id),
            final(cur).res_earning == old(cur).res_earning,
            final(self).wf(),
    {
        self.inner.used = false;
        let woken = if let Some(waking_task) = self.inner.wait_queue.pop_front() {
            Some(waking_task)
        } else {
            self.inner.locked = false;
            None
        };
        remove_first_occurrence(&mut cur.res_holding, mutex_id);
        woken
    }
}

/// An entry of a process's mutex table: either kind of mutex.
pub enum MutexEntry {
    Spin(MutexSpin),
    Blocking(MutexBlocking),
}

impl MutexEntry {
    /// The `used` flag of the mutex, whichever kind it is.
    pub open spec fn used_flag(&self) -> bool {
        match self {
            MutexEntry::Spin(m) => m.used,
            MutexEntry::Blocking(m) => m.inner.used,
        }
    }

    /// Whether the mutex is a spinlock.
    pub open spec fn is_spin(&self) -> bool {
        self is Spin
    }

    /// The `locked` flag of the mutex, whichever kind it is.
    pub open spec fn locked_flag(&self) -> bool {
        match self {
            MutexEntry::Spin(m) => m.locked,
            MutexEntry::Blocking(m) => m.inner.locked,
        }
    }

    /// No thread waits on a free blocking mutex.
    pub open spec fn wf(&self) -> bool {
        match self {
            MutexEntry::Spin(m) => true,
            MutexEntry::Blocking(m) => m.wf(),
        }
    }

    /// The threads waiting on the mutex (none for a spinlock).
    pub open spec fn waiters(&self) -> Seq<usize> {
        match self {
            MutexEntry::Spin(m) => Seq::empty(),
            MutexEntry::Blocking(m) => m.inner.wait_queue@,
        }
    }

    /// Whether the mutex is used.
    pub fn is_used(&self) -> (used: bool)
        ensures
            used == self.used_flag(),
    {
        match self {
            MutexEntry::Spin(m) => m.is_used(),
            MutexEntry::Blocking(m) => m.is_used(),
        }
    }
}

} // verus!
