use rcore_os::syscall::{
    sys_exec, sys_fork, sys_get_time, sys_getpid, sys_mmap, sys_munmap, sys_sbrk, sys_set_priority, sys_spawn,
    sys_waitpid, sys_yield, ChildProc, MmapPlan, MunmapPlan, TimeVal, PAGE_SIZE,
};
use rcore_os::task::TaskControlBlock;

fn expected_bytes(us: usize) -> Vec<u8> {
    let tv = TimeVal { sec: us / 1_000_000, usec: us % 1_000_000 };
    let mut v = tv.sec.to_le_bytes().to_vec();
    v.extend_from_slice(&tv.usec.to_le_bytes());
    v
}

#[test]
fn get_time_within_one_page() {
    let us = 3_725_000_042usize;
    let mut arrays = vec![vec![0u8; 2 * core::mem::size_of::<usize>()]];
    assert_eq!(sys_get_time(us, 0x1000_0100, &mut arrays), 0);
    assert_eq!(arrays[0], expected_bytes(us));
}

#[test]
fn get_time_across_a_page_boundary() {
    let us = 0x0123_4567_89ab_cdefusize % usize::MAX;
    let w = core::mem::size_of::<usize>();
    for first in 1..(2 * w) {
        let ts = 0x2000 * PAGE_SIZE - first;
        let mut arrays = vec![vec![0xaau8; first], vec![0xaau8; 2 * w - first]];
        assert_eq!(sys_get_time(us, ts, &mut arrays), 0);
        let mut joined = arrays[0].clone();
        joined.extend_from_slice(&arrays[1]);
        assert_eq!(joined, expected_bytes(us));
    }
}

#[test]
fn get_time_seconds_and_microseconds() {
    let us = 5_000_001usize;
    let mut arrays = vec![vec![0u8; 2 * core::mem::size_of::<usize>()]];
    sys_get_time(us, 64, &mut arrays);
    let w = core::mem::size_of::<usize>();
    assert_eq!(arrays[0][0], 5);
    assert_eq!(arrays[0][w], 1);
}

fn child(pid: usize, zombie: bool, exit_code: i32) -> ChildProc {
    ChildProc { pid, zombie, exit_code }
}

#[test]
fn waitpid_without_child_is_minus_one() {
    let mut children = vec![child(3, true, 1)];
    assert_eq!(sys_waitpid(&mut children, 4), (-1, None));
    let mut none: Vec<ChildProc> = vec![];
    assert_eq!(sys_waitpid(&mut none, -1), (-1, None));
    assert_eq!(children.len(), 1);
}

#[test]
fn waitpid_running_child_is_minus_two() {
    let mut children = vec![child(3, false, 0), child(5, true, 9)];
    assert_eq!(sys_waitpid(&mut children, 3), (-2, None));
    assert_eq!(children.len(), 2);
}

#[test]
fn waitpid_reaps_first_exited_child() {
    let mut children = vec![child(3, false, 0), child(5, true, 9), child(6, true, 4)];
    assert_eq!(sys_waitpid(&mut children, -1), (5, Some(9)));
    assert_eq!(children.len(), 2);
    assert_eq!(children[0].pid, 3);
    assert_eq!(children[1].pid, 6);
    assert_eq!(sys_waitpid(&mut children, 6), (6, Some(4)));
    assert_eq!(sys_waitpid(&mut children, -1), (-2, None));
}

#[test]
fn spawned_child_is_waited_for_until_it_exits() {
    let mut children = vec![];
    assert_eq!(sys_spawn(&mut children, false, 8), -1);
    assert!(children.is_empty());
    assert_eq!(sys_spawn(&mut children, true, 8), 8);
    assert_eq!(sys_waitpid(&mut children, 8), (-2, None));
    children[0].zombie = true;
    children[0].exit_code = -3;
    assert_eq!(sys_waitpid(&mut children, 8), (8, Some(-3)));
    assert!(children.is_empty());
}

#[test]
fn fork_exec_getpid_yield_priority() {
    let mut children = vec![];
    assert_eq!(sys_fork(&mut children, 12), (12, 0));
    assert_eq!(children.len(), 1);
    assert_eq!(children[0].pid, 12);
    assert_eq!(sys_exec(true), 0);
    assert_eq!(sys_exec(false), -1);
    assert_eq!(sys_getpid(42), 42);
    assert_eq!(sys_yield(), 0);
    assert_eq!(sys_set_priority(16), -1);
}

#[test]
fn mmap_rejects_bad_arguments() {
    assert!(matches!(sys_mmap(0x1001, 0x1000, 1), MmapPlan::Reject));
    assert!(matches!(sys_mmap(0x1000, 0x1000, 0), MmapPlan::Reject));
    assert!(matches!(sys_mmap(0x1000, 0x1000, 8), MmapPlan::Reject));
    assert!(matches!(sys_mmap(0x1000, 0x1000, 0x13), MmapPlan::Reject));
}

#[test]
fn mmap_plans_rounded_range_and_rights() {
    match sys_mmap(0x10000, 0x1001, 0b101) {
        MmapPlan::MapRange { start, end, perm } => {
            assert_eq!(start, 0x10000);
            assert_eq!(end, 0x11000);
            assert!(perm.r && !perm.w && perm.x);
        },
        MmapPlan::Reject => panic!("arguments are valid"),
    }
    match sys_mmap(0, 1, 0b010) {
        MmapPlan::MapRange { start, end, perm } => {
            assert_eq!((start, end), (0, 0));
            assert!(!perm.r && perm.w && !perm.x);
        },
        MmapPlan::Reject => panic!("arguments are valid"),
    }
}

#[test]
fn munmap_plans_whole_pages() {
    assert!(matches!(sys_munmap(0x1004, 10), MunmapPlan::Reject));
    match sys_munmap(0x5000, 0x2001) {
        MunmapPlan::Unmap { start_vpn, pages } => assert_eq!((start_vpn, pages), (5, 3)),
        MunmapPlan::Reject => panic!("start is aligned"),
    }
    match sys_munmap(0x5000, 0) {
        MunmapPlan::Unmap { start_vpn, pages } => assert_eq!((start_vpn, pages), (5, 0)),
        MunmapPlan::Reject => panic!("start is aligned"),
    }
}

#[test]
fn sbrk_returns_old_break_or_minus_one() {
    let mut t = TaskControlBlock::new(0, 0x4000, 0, 0);
    assert_eq!(sys_sbrk(&mut t, 0x100, true), 0x4000);
    assert_eq!(t.program_brk, 0x4100);
    assert_eq!(sys_sbrk(&mut t, -0x200, true), -1);
    assert_eq!(sys_sbrk(&mut t, 0x100, false), -1);
    assert_eq!(t.program_brk, 0x4100);
}
