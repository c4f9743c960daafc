use rcore_os::sync::mutex::{Mutex, MutexBlocking, MutexEntry, MutexSpin};
use rcore_os::sync::semaphore::Semaphore;
use rcore_os::sync::{check_deadlock_ok, remove_first_occurrence, ProcessSync, ThreadRes, TryStep, DEADLOCK_CODE};

fn thread(tid: usize, holding: Vec<usize>, earning: Option<usize>) -> ThreadRes {
    ThreadRes { tid, res_holding: holding, res_earning: earning }
}

fn process(mutexes: Vec<Option<MutexEntry>>, sems: Vec<Option<Semaphore>>, tasks: Vec<Option<ThreadRes>>) -> ProcessSync {
    ProcessSync { mutex_list: mutexes, semaphore_list: sems, tasks }
}

fn used_blocking() -> MutexEntry {
    let mut m = MutexBlocking::new();
    m.inner.locked = true;
    m.inner.used = true;
    MutexEntry::Blocking(m)
}

#[test]
fn spin_lock_then_contended_then_unlock() {
    let mut m = MutexSpin::new();
    assert!(!m.is_used());
    assert!(m.lock(1));
    assert!(m.locked);
    assert!(!m.lock(2));
    assert!(m.locked);
    assert_eq!(m.unlock(), None);
    assert!(!m.locked);
    assert!(m.lock(2));
}

#[test]
fn spin_try_lock_records_holding_and_clears_wait() {
    let mut m = MutexSpin::new();
    let mut cur = thread(7, vec![3], Some(9));
    assert!(m.take_or_mark(4, &mut cur));
    assert!(m.locked && m.used && m.is_used());
    assert_eq!(cur.res_holding, vec![3, 4]);
    assert_eq!(cur.res_earning, None);
    let mut other = thread(8, vec![], None);
    assert!(!m.take_or_mark(4, &mut other));
    assert_eq!(other.res_earning, Some(4));
    assert!(other.res_holding.is_empty());
    assert_eq!(m.unlock_mid(4, &mut cur), None);
    assert!(!m.locked && !m.used);
    assert_eq!(cur.res_holding, vec![3]);
}

#[test]
fn blocking_unlock_hands_over_in_fifo_order() {
    let mut m = MutexBlocking::new();
    assert!(m.lock(1));
    assert!(!m.lock(2));
    assert!(!m.lock(3));
    assert_eq!(m.inner.wait_queue.iter().copied().collect::<Vec<_>>(), vec![2, 3]);
    assert_eq!(m.unlock(), Some(2));
    assert!(m.inner.locked);
    assert_eq!(m.unlock(), Some(3));
    assert!(m.inner.locked);
    assert_eq!(m.unlock(), None);
    assert!(!m.inner.locked);
}

#[test]
fn blocking_try_lock_keeps_waiting_mark_on_acquire() {
    let mut m = MutexBlocking::new();
    let mut cur = thread(1, vec![], Some(5));
    assert!(m.take_or_mark(0, &mut cur));
    assert_eq!(cur.res_holding, vec![0]);
    assert_eq!(cur.res_earning, Some(5));
    assert!(m.is_used());
    let mut other = thread(2, vec![], None);
    assert!(!m.take_or_mark(0, &mut other));
    assert_eq!(other.res_earning, Some(0));
    m.wait(2);
    assert_eq!(m.unlock_mid(0, &mut cur), Some(2));
    assert!(m.inner.locked);
    assert!(!m.inner.used);
    assert!(cur.res_holding.is_empty());
    m.finish_wait(0, &mut other);
    assert!(m.inner.used);
    assert_eq!(other.res_holding, vec![0]);
    assert_eq!(other.res_earning, None);
    assert_eq!(m.unlock_mid(0, &mut other), None);
    assert!(!m.inner.locked);
}

#[test]
fn unlock_mid_removes_only_first_occurrence() {
    let mut holding = vec![1, 2, 1, 3];
    remove_first_occurrence(&mut holding, 1);
    assert_eq!(holding, vec![2, 1, 3]);
    remove_first_occurrence(&mut holding, 9);
    assert_eq!(holding, vec![2, 1, 3]);
}

#[test]
fn semaphore_down_blocks_when_empty_and_up_wakes_first() {
    let mut s = Semaphore::new(2);
    assert_eq!(s.inner.count, 2);
    assert!(!s.down(1));
    assert!(!s.down(2));
    assert!(s.down(3));
    assert!(s.down(4));
    assert_eq!(s.inner.count, -2);
    assert_eq!(s.up(), Some(3));
    assert_eq!(s.inner.count, -1);
    assert_eq!(s.up(), Some(4));
    assert_eq!(s.up(), None);
    assert_eq!(s.inner.count, 1);
    assert!(s.inner.wait_queue.is_empty());
}

#[test]
fn semaphore_up_semid_counts_handed_units() {
    let mut s = Semaphore::new(0);
    let mut holder = thread(1, vec![0, 5], None);
    assert!(s.down(2));
    assert_eq!(s.up_semid(0, &mut holder), Some(2));
    assert_eq!(s.inner.unused_cnt, 1);
    assert_eq!(s.inner.count, 0);
    assert_eq!(holder.res_holding, vec![5]);
    let mut woken = thread(2, vec![], Some(0));
    s.finish_wait(0, &mut woken);
    assert_eq!(s.inner.unused_cnt, 0);
    assert_eq!(woken.res_holding, vec![0]);
    assert_eq!(woken.res_earning, None);
    assert_eq!(s.up_semid(0, &mut woken), None);
    assert_eq!(s.inner.count, 1);
    assert_eq!(s.inner.unused_cnt, 0);
}

#[test]
fn semaphore_try_down_marks_waiting_when_empty() {
    let mut s = Semaphore::new(1);
    let mut a = thread(1, vec![], None);
    assert!(s.take_or_mark(3, &mut a));
    assert_eq!(a.res_holding, vec![3]);
    let mut b = thread(2, vec![], None);
    assert!(!s.take_or_mark(3, &mut b));
    assert_eq!(s.inner.count, -1);
    assert_eq!(b.res_earning, Some(3));
    assert!(s.inner.wait_queue.is_empty());
}

#[test]
fn deadlock_check_cycle_is_refused() {
    let t0 = thread(0, vec![0], Some(1));
    let t1 = thread(1, vec![1], Some(0));
    let p = process(vec![Some(used_blocking()), Some(used_blocking())], vec![], vec![]);
    assert!(!check_deadlock_ok(vec![&t0, &t1], &p, true));
}

#[test]
fn deadlock_check_nobody_waiting_is_fine() {
    let t0 = thread(0, vec![0], None);
    let t1 = thread(1, vec![], None);
    let p = process(vec![Some(used_blocking())], vec![], vec![]);
    assert!(check_deadlock_ok(vec![&t0, &t1], &p, true));
}

#[test]
fn deadlock_check_free_mutex_unblocks_waiter() {
    let t0 = thread(0, vec![0], Some(1));
    let t1 = thread(1, vec![], Some(0));
    let free = MutexEntry::Spin(MutexSpin::new());
    let p = process(vec![Some(used_blocking()), Some(free)], vec![], vec![]);
    assert!(check_deadlock_ok(vec![&t0, &t1], &p, true));
}

#[test]
fn deadlock_check_long_chain_is_resolved() {
    // Thread i waits for what thread i + 1 holds; the last waits for a free
    // mutex: they can all finish, last one first, in either slot order.
    let t0 = thread(0, vec![0], Some(1));
    let t1 = thread(1, vec![1], Some(2));
    let t2 = thread(2, vec![2], Some(3));
    let t3 = thread(3, vec![3], Some(4));
    let free = MutexEntry::Spin(MutexSpin::new());
    let p = process(
        vec![Some(used_blocking()), Some(used_blocking()), Some(used_blocking()), Some(used_blocking()), Some(free)],
        vec![],
        vec![],
    );
    assert!(check_deadlock_ok(vec![&t0, &t1, &t2, &t3], &p, true));
    assert!(check_deadlock_ok(vec![&t3, &t2, &t1, &t0], &p, true));
}

#[test]
fn deadlock_check_semaphore_with_unit_or_handed_unit_is_free() {
    let t0 = thread(0, vec![], Some(0));
    let t1 = thread(1, vec![], Some(1));
    let mut handed = Semaphore::new(0);
    handed.inner.unused_cnt = 1;
    let empty = Semaphore::new(0);
    let p = process(vec![], vec![Some(handed), Some(empty)], vec![]);
    assert!(!check_deadlock_ok(vec![&t0, &t1], &p, false));
    let p2 = process(vec![], vec![Some(Semaphore::new(1)), Some(Semaphore::new(1))], vec![]);
    assert!(check_deadlock_ok(vec![&t0, &t1], &p2, false));
}

#[test]
fn process_try_lock_acquires_blocks_and_refuses() {
    let mut p = process(
        vec![Some(MutexEntry::Blocking(MutexBlocking::new())), Some(MutexEntry::Blocking(MutexBlocking::new()))],
        vec![],
        vec![Some(thread(10, vec![], None)), None, Some(thread(11, vec![], None))],
    );
    assert!(matches!(MutexBlocking::try_lock(&mut p, 0, 0), TryStep::Acquired));
    assert!(matches!(MutexBlocking::try_lock(&mut p, 1, 2), TryStep::Acquired));
    // Thread 10 waits for mutex 1 held by 11: no cycle yet.
    assert!(matches!(MutexBlocking::try_lock(&mut p, 1, 0), TryStep::Blocked));
    match &p.mutex_list[1] {
        Some(MutexEntry::Blocking(m)) => assert_eq!(m.inner.wait_queue.iter().copied().collect::<Vec<_>>(), vec![10]),
        _ => panic!("mutex 1 is a blocking mutex"),
    }
    // Thread 11 asking for mutex 0 would close the cycle.
    assert!(matches!(MutexBlocking::try_lock(&mut p, 0, 2), TryStep::Deadlock));
    assert_eq!(p.tasks[2].as_ref().unwrap().res_earning, Some(0));
    assert_eq!(DEADLOCK_CODE, -0xDEAD);
    assert_eq!(TryStep::Deadlock.code(), -0xDEAD);
    assert_eq!(TryStep::Blocked.code(), 0);
}

#[test]
fn process_try_lock_on_spinlock_retries() {
    let mut p = process(
        vec![Some(MutexEntry::Spin(MutexSpin::new()))],
        vec![],
        vec![Some(thread(1, vec![], None)), Some(thread(2, vec![], None))],
    );
    assert!(matches!(MutexSpin::try_lock(&mut p, 0, 0), TryStep::Acquired));
    assert!(matches!(MutexSpin::try_lock(&mut p, 0, 1), TryStep::Retry));
    assert_eq!(p.tasks[1].as_ref().unwrap().res_earning, Some(0));
}

#[test]
fn process_blocked_lock_resumes_with_lock_held() {
    let mut p = process(
        vec![Some(MutexEntry::Blocking(MutexBlocking::new()))],
        vec![],
        vec![Some(thread(1, vec![], None)), Some(thread(2, vec![], None))],
    );
    assert!(matches!(MutexBlocking::try_lock(&mut p, 0, 0), TryStep::Acquired));
    assert!(matches!(MutexBlocking::try_lock(&mut p, 0, 1), TryStep::Blocked));
    p.mutex_resume(0, 1);
    let t = p.tasks[1].as_ref().unwrap();
    assert_eq!(t.res_holding, vec![0]);
    assert_eq!(t.res_earning, None);
}

#[test]
fn process_try_down_acquires_blocks_resumes_and_refuses() {
    let mut p = process(
        vec![],
        vec![Some(Semaphore::new(1)), Some(Semaphore::new(1))],
        vec![Some(thread(1, vec![], None)), Some(thread(2, vec![], None))],
    );
    assert!(matches!(Semaphore::try_down(&mut p, 0, 0), TryStep::Acquired));
    assert!(matches!(Semaphore::try_down(&mut p, 1, 1), TryStep::Acquired));
    assert!(matches!(Semaphore::try_down(&mut p, 1, 0), TryStep::Blocked));
    assert_eq!(p.semaphore_list[1].as_ref().unwrap().inner.count, -1);
    assert!(matches!(Semaphore::try_down(&mut p, 0, 1), TryStep::Deadlock));
    assert_eq!(p.semaphore_list[0].as_ref().unwrap().inner.count, -1);
    assert!(p.semaphore_list[0].as_ref().unwrap().inner.wait_queue.is_empty());
    p.semaphore_list[1].as_mut().unwrap().inner.unused_cnt = 1;
    p.semaphore_resume(1, 0);
    assert_eq!(p.tasks[0].as_ref().unwrap().res_holding, vec![0, 1]);
    assert_eq!(p.semaphore_list[1].as_ref().unwrap().inner.unused_cnt, 0);
}

#[test]
fn living_tasks_skips_empty_slots() {
    let p = process(vec![], vec![], vec![None, Some(thread(4, vec![], None)), None, Some(thread(6, vec![1], None))]);
    let l = p.living_tasks();
    assert_eq!(l.len(), 2);
    assert_eq!(l[0].tid, 4);
    assert_eq!(l[1].tid, 6);
}

#[test]
fn deadlock_check_wait_for_resource_nobody_has_is_refused() {
    let t0 = thread(0, vec![], None);
    let t1 = thread(1, vec![0], Some(1));
    let p = process(vec![Some(used_blocking()), Some(used_blocking())], vec![], vec![]);
    assert!(!check_deadlock_ok(vec![&t0, &t1], &p, true));
}

#[test]
fn semaphore_stays_balanced_through_downs_and_ups() {
    let mut s = Semaphore::new(1);
    for tid in 0..4 {
        s.down(tid);
        let waiting = s.inner.wait_queue.len() as isize;
        assert_eq!(waiting, if s.inner.count < 0 { -s.inner.count } else { 0 });
    }
    for _ in 0..4 {
        s.up();
        let waiting = s.inner.wait_queue.len() as isize;
        assert_eq!(waiting, if s.inner.count < 0 { -s.inner.count } else { 0 });
    }
    assert_eq!(s.inner.count, 1);
}

#[test]
fn deadlock_check_more_free_resources_keep_it_deadlock_free() {
    let t0 = thread(0, vec![0], Some(1));
    let t1 = thread(1, vec![1], Some(2));
    let free = || MutexEntry::Spin(MutexSpin::new());
    let fewer = process(vec![Some(used_blocking()), Some(used_blocking()), Some(free())], vec![], vec![]);
    let more = process(vec![Some(used_blocking()), Some(free()), Some(free())], vec![], vec![]);
    assert!(check_deadlock_ok(vec![&t0, &t1], &fewer, true));
    assert!(check_deadlock_ok(vec![&t0, &t1], &more, true));
}

#[test]
fn try_lock_unlock_mid_resume_keep_one_holder() {
    let mut p = process(
        vec![Some(MutexEntry::Blocking(MutexBlocking::new()))],
        vec![],
        vec![Some(thread(1, vec![], None)), Some(thread(2, vec![], None))],
    );
    let holders = |p: &ProcessSync| p.tasks.iter().filter(|t| t.as_ref().map_or(false, |t| t.res_holding.contains(&0))).count();
    assert!(matches!(MutexBlocking::try_lock(&mut p, 0, 0), TryStep::Acquired));
    assert_eq!(holders(&p), 1);
    assert!(matches!(MutexBlocking::try_lock(&mut p, 0, 1), TryStep::Blocked));
    assert_eq!(holders(&p), 1);
    let woken = {
        let ProcessSync { mutex_list, tasks, .. } = &mut p;
        match mutex_list[0].as_mut().unwrap() {
            MutexEntry::Blocking(m) => m.unlock_mid(0, tasks[0].as_mut().unwrap()),
            MutexEntry::Spin(_) => unreachable!(),
        }
    };
    assert_eq!(woken, Some(2));
    assert_eq!(holders(&p), 0);
    p.mutex_resume(0, 1);
    assert_eq!(holders(&p), 1);
    assert!(p.tasks[1].as_ref().unwrap().res_holding == vec![0]);
}

#[test]
fn process_unlock_mid_hands_over_or_unlocks() {
    let mut p = process(
        vec![Some(MutexEntry::Blocking(MutexBlocking::new()))],
        vec![],
        vec![Some(thread(1, vec![], None)), Some(thread(2, vec![], None))],
    );
    assert!(matches!(MutexBlocking::try_lock(&mut p, 0, 0), TryStep::Acquired));
    assert!(matches!(MutexBlocking::try_lock(&mut p, 0, 1), TryStep::Blocked));
    assert_eq!(p.mutex_unlock_mid(0, 0), Some(2));
    assert!(p.tasks[0].as_ref().unwrap().res_holding.is_empty());
    match &p.mutex_list[0] {
        Some(MutexEntry::Blocking(m)) => assert!(m.inner.locked && !m.inner.used),
        _ => unreachable!(),
    }
    p.mutex_resume(0, 1);
    assert_eq!(p.mutex_unlock_mid(0, 1), None);
    match &p.mutex_list[0] {
        Some(MutexEntry::Blocking(m)) => assert!(!m.inner.locked),
        _ => unreachable!(),
    }
}

#[test]
fn handed_over_units_count_woken_threads_not_yet_resumed() {
    let mut p = process(
        vec![],
        vec![Some(Semaphore::new(1))],
        vec![Some(thread(1, vec![], None)), Some(thread(2, vec![], None)), Some(thread(3, vec![], None))],
    );
    assert!(matches!(Semaphore::try_down(&mut p, 0, 0), TryStep::Acquired));
    assert!(matches!(Semaphore::try_down(&mut p, 0, 1), TryStep::Blocked));
    let woken = {
        let ProcessSync { semaphore_list, tasks, .. } = &mut p;
        semaphore_list[0].as_mut().unwrap().up_semid(0, tasks[0].as_mut().unwrap())
    };
    assert_eq!(woken, Some(2));
    assert_eq!(p.semaphore_list[0].as_ref().unwrap().inner.unused_cnt, 1);
    p.semaphore_resume(0, 1);
    assert_eq!(p.semaphore_list[0].as_ref().unwrap().inner.unused_cnt, 0);
}
