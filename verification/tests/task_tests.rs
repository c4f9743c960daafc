use rcore_os::syscall::{SYSCALL_EXIT, SYSCALL_GET_TIME, SYSCALL_MMAP, SYSCALL_MUNMAP, SYSCALL_SBRK, SYSCALL_TRACE, SYSCALL_WRITE, SYSCALL_YIELD};
use rcore_os::task::{CountSyscall, TaskControlBlock, TaskStatus};

const COUNTED: [usize; 8] = [
    SYSCALL_WRITE, SYSCALL_EXIT, SYSCALL_YIELD, SYSCALL_GET_TIME, SYSCALL_TRACE, SYSCALL_MMAP, SYSCALL_MUNMAP, SYSCALL_SBRK,
];

#[test]
fn counts_start_at_zero_and_unknown_is_minus_one() {
    let c = CountSyscall::zero_init();
    for id in COUNTED {
        assert_eq!(c.get_cnt(id), 0);
    }
    assert_eq!(c.get_cnt(17), -1);
    assert_eq!(c.get_cnt(0), -1);
}

#[test]
fn modify_counts_only_its_syscall() {
    let mut c = CountSyscall::zero_init();
    c.modify_cnt(SYSCALL_WRITE);
    c.modify_cnt(SYSCALL_WRITE);
    c.modify_cnt(SYSCALL_SBRK);
    assert_eq!(c.get_cnt(SYSCALL_WRITE), 2);
    assert_eq!(c.get_cnt(SYSCALL_SBRK), 1);
    for id in [SYSCALL_EXIT, SYSCALL_YIELD, SYSCALL_GET_TIME, SYSCALL_TRACE, SYSCALL_MMAP, SYSCALL_MUNMAP] {
        assert_eq!(c.get_cnt(id), 0);
    }
}

#[test]
fn syscall_ids() {
    assert_eq!(COUNTED, [64, 93, 124, 169, 410, 222, 215, 214]);
}

#[test]
fn new_task_is_ready_with_break_at_stack() {
    let t = TaskControlBlock::new(0x8000_0000_0000_1234, 0x1_0000, 77, 0xffff_1000);
    assert!(t.task_status == TaskStatus::Ready);
    assert_eq!(t.base_size, 0x1_0000);
    assert_eq!(t.heap_bottom, 0x1_0000);
    assert_eq!(t.program_brk, 0x1_0000);
    assert_eq!(t.trap_cx_ppn, 77);
    assert_eq!(t.kernel_stack_top, 0xffff_1000);
    assert_eq!(t.get_user_token(), 0x8000_0000_0000_1234);
    assert_eq!(t.syscall_cnt.get_cnt(SYSCALL_WRITE), 0);
}

#[test]
fn brk_moves_and_comes_back() {
    let mut t = TaskControlBlock::new(0, 0x1000, 0, 0);
    assert_eq!(t.brk_target(0x2000), Some((0x3000, false)));
    assert_eq!(t.change_program_brk(0x2000, true), Some(0x1000));
    assert_eq!(t.program_brk, 0x3000);
    assert_eq!(t.brk_target(-0x2000), Some((0x1000, true)));
    assert_eq!(t.change_program_brk(-0x2000, true), Some(0x3000));
    assert_eq!(t.program_brk, 0x1000);
}

#[test]
fn brk_below_heap_bottom_or_failed_resize_is_refused() {
    let mut t = TaskControlBlock::new(0, 0x1000, 0, 0);
    assert_eq!(t.brk_target(-1), None);
    assert_eq!(t.change_program_brk(-1, true), None);
    assert_eq!(t.program_brk, 0x1000);
    assert_eq!(t.change_program_brk(0x1000, false), None);
    assert_eq!(t.program_brk, 0x1000);
    assert_eq!(t.change_program_brk(0, true), Some(0x1000));
}

#[test]
fn counts_equal_calls_made() {
    let mut c = CountSyscall::zero_init();
    let calls = [SYSCALL_YIELD, SYSCALL_MMAP, SYSCALL_YIELD, SYSCALL_TRACE, SYSCALL_YIELD];
    for id in calls {
        c.modify_cnt(id);
    }
    for id in COUNTED {
        assert_eq!(c.get_cnt(id), calls.iter().filter(|&&x| x == id).count() as isize);
    }
}
