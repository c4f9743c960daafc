//! Task control block: status, program break and per-task syscall counters.
use vstd::prelude::*;
use crate::syscall::{
    SYSCALL_EXIT, SYSCALL_GET_TIME, SYSCALL_MMAP, SYSCALL_MUNMAP, SYSCALL_SBRK, SYSCALL_TRACE,
    SYSCALL_WRITE, SYSCALL_YIELD,
};

verus! {

/// Task status: UnInit, Ready, Running, Exited.
#[derive(Clone, Copy, PartialEq, Eq, Structural)]
pub enum TaskStatus {
    /// uninitialized
    UnInit,
    /// ready to run
    Ready,
    /// running
    Running,
    /// exited
    Exited,
}

/// The syscalls whose calls a task counts.
pub open spec fn is_counted_syscall(syscall_id: usize) -> bool {
    syscall_id == SYSCALL_WRITE || syscall_id == SYSCALL_EXIT || syscall_id == SYSCALL_YIELD
        || syscall_id == SYSCALL_GET_TIME || syscall_id == SYSCALL_TRACE || syscall_id == SYSCALL_MMAP
        || syscall_id == SYSCALL_MUNMAP || syscall_id == SYSCALL_SBRK
}

/// How many times a task has made each of the counted syscalls.
#[derive(Clone, Copy)]
pub struct CountSyscall {
    cnt_write: isize,
    cnt_exit: isize,
    cnt_yield: isize,
    cnt_gettime: isize,
    cnt_trace: isize,
    cnt_mmap: isize,
    cnt_munmap: isize,
    cnt_sbrk: isize,
}

impl CountSyscall {
    /// The count kept for `syscall_id`, -1 for a syscall that is not counted.
    pub closed spec fn count(self, syscall_id: usize) -> isize {
        if syscall_id == SYSCALL_WRITE {
            self.cnt_write
        } else if syscall_id == SYSCALL_EXIT {
            self.cnt_exit
        } else if syscall_id == SYSCALL_YIELD {
            self.cnt_yield
        } else if syscall_id == SYSCALL_GET_TIME {
            self.cnt_gettime
        } else if syscall_id == SYSCALL_TRACE {
            self.cnt_trace
        } else if syscall_id == SYSCALL_MMAP {
            self.cnt_mmap
        } else if syscall_id == SYSCALL_MUNMAP {
            self.cnt_munmap
        } else if syscall_id == SYSCALL_SBRK {
            self.cnt_sbrk
        } else {
            -1isize
        }
    }

    /// The counters once one more call of `syscall_id` is counted (unchanged
    /// for a syscall that is not counted).
    pub closed spec fn bumped(self, syscall_id: usize) -> Self {
        if syscall_id == SYSCALL_WRITE {
            CountSyscall { cnt_write: (self.cnt_write + 1) as isize, ..self }
        } else if syscall_id == SYSCALL_EXIT {
            CountSyscall { cnt_exit: (self.cnt_exit + 1) as isize, ..self }
        } else if syscall_id == SYSCALL_YIELD {
            CountSyscall { cnt_yield: (self.cnt_yield + 1) as isize, ..self }
        } else if syscall_id == SYSCALL_GET_TIME {
            CountSyscall { cnt_gettime: (self.cnt_gettime + 1) as isize, ..self }
        } else if syscall_id == SYSCALL_TRACE {
            CountSyscall { cnt_trace: (self.cnt_trace + 1) as isize, ..self }
        } else if syscall_id == SYSCALL_MMAP {
            CountSyscall { cnt_mmap: (self.cnt_mmap + 1) as isize, ..self }
        } else if syscall_id == SYSCALL_MUNMAP {
            CountSyscall { cnt_munmap: (self.cnt_munmap + 1) as isize, ..self }
        } else if syscall_id == SYSCALL_SBRK {
            CountSyscall { cnt_sbrk: (self.cnt_sbrk + 1) as isize, ..self }
        } else {
            self
        }
    }

    /// Counting a call changes the count of that syscall only, by one.
    pub proof fn lemma_bumped_count(self, syscall_id: usize, other: usize)
        requires
            is_counted_syscall(other),
            syscall_id == other ==> self.count(other) < isize::MAX,
        ensures
            self.bumped(syscall_id).count(other) == self.count(other) + (if syscall_id == other { 1int } else { 0int }),
    {
    }

    /// Counts one more call of `syscall_id`.
    pub fn modify_cnt(&mut self, syscall_id: usize)
        requires
            is_counted_syscall(syscall_id),
            old(self).count(syscall_id) < isize::MAX,
        ensures
            *final(self) == old(self).bumped(syscall_id),
            final(self).count(syscall_id) == old(self).count(syscall_id) + 1,
            forall|other: usize| other != syscall_id ==> #[trigger] final(self).count(other) == old(self).count(other),
    {
        if syscall_id == SYSCALL_WRITE {
            self.cnt_write = self.cnt_write + 1;
        } else if syscall_id == SYSCALL_EXIT {
            self.cnt_exit = self.cnt_exit + 1;
        } else if syscall_id == SYSCALL_YIELD {
            self.cnt_yield = self.cnt_yield + 1;
        } else if syscall_id == SYSCALL_GET_TIME {
            self.cnt_gettime = self.cnt_gettime + 1;
        } else if syscall_id == SYSCALL_TRACE {
            self.cnt_trace = self.cnt_trace + 1;
        } else if syscall_id == SYSCALL_MMAP {
            self.cnt_mmap = self.cnt_mmap + 1;
        } else if syscall_id == SYSCALL_MUNMAP {
            self.cnt_munmap = self.cnt_munmap + 1;
        } else {
            self.cnt_sbrk = self.cnt_sbrk + 1;
        }
    }

    /// The number of calls of `syscall_id` counted so far; -1 when the
    /// syscall is not counted.
    pub fn get_cnt(&self, syscall_id: usize) -> (r: isize)
        ensures
            r == self.count(syscall_id),
            !is_counted_syscall(syscall_id) ==> r == -1,
    {
        if syscall_id == SYSCALL_WRITE {
            self.cnt_write
        } else if syscall_id == SYSCALL_EXIT {
            self.cnt_exit
        } else if syscall_id == SYSCALL_YIELD {
            self.cnt_yield
        } else if syscall_id == SYSCALL_GET_TIME {
            self.cnt_gettime
        } else if syscall_id == SYSCALL_TRACE {
            self.cnt_trace
        } else if syscall_id == SYSCALL_MMAP {
            self.cnt_mmap
        } else if syscall_id == SYSCALL_MUNMAP {
            self.cnt_munmap
        } else if syscall_id == SYSCALL_SBRK {
            self.cnt_sbrk
        } else {
            -1
        }
    }

    /// All counts at zero.
    pub fn zero_init() -> (c: Self)
        ensures
            forall|syscall_id: usize| is_counted_syscall(syscall_id) ==> #[trigger] c.count(syscall_id) == 0,
    {
        CountSyscall {
            cnt_exit: 0,
            cnt_gettime: 0,
            cnt_trace: 0,
            cnt_write: 0,
            cnt_yield: 0,
            cnt_mmap: 0,
            cnt_munmap: 0,
            cnt_sbrk: 0,
        }
    }
}

/// The counters once each call of `calls` has been counted, in turn.
pub open spec fn counted_calls(c: CountSyscall, calls: Seq<usize>) -> CountSyscall
    decreases calls.len(),
{
    if calls.len() == 0 {
        c
    } else {
        counted_calls(c, calls.drop_last()).bumped(calls.last())
    }
}

/// How many times `syscall_id` occurs in `calls`.
pub open spec fn occurrences(calls: Seq<usize>, syscall_id: usize) -> int
    decreases calls.len(),
{
    if calls.len() == 0 {
        0
    } else {
        occurrences(calls.drop_last(), syscall_id) + if calls.last() == syscall_id { 1int } else { 0int }
    }
}

proof fn lemma_occurrences_nonneg(calls: Seq<usize>, syscall_id: usize)
    ensures
        occurrences(calls, syscall_id) >= 0,
    decreases calls.len(),
{
    if calls.len() > 0 {
        lemma_occurrences_nonneg(calls.drop_last(), syscall_id);
    }
}

/// The count of a syscall grows by the number of its calls counted: from
/// `zero_init`, it is the number of calls made.
pub proof fn lemma_counts_are_calls(c: CountSyscall, calls: Seq<usize>, syscall_id: usize)
    requires
        is_counted_syscall(syscall_id),
        c.count(syscall_id) >= 0,
        c.count(syscall_id) + occurrences(calls, syscall_id) <= isize::MAX,
    ensures
        counted_calls(c, calls).count(syscall_id) == c.count(syscall_id) + occurrences(calls, syscall_id),
    decreases calls.len(),
{
    if calls.len() > 0 {
        let prev = calls.drop_last();
        lemma_occurrences_nonneg(prev, syscall_id);
        lemma_counts_are_calls(c, prev, syscall_id);
        counted_calls(c, prev).lemma_bumped_count(calls.last(), syscall_id);
    }
}

/// The task control block, as far as it is a record of values: the address
/// space, trap context and kernel stack it refers to are kept as the token,
/// physical page number and stack top that the kernel hands over.
pub struct TaskControlBlock {
    /// Top of the kernel stack its saved context returns on.
    pub kernel_stack_top: usize,
    /// Status of the task.
    pub task_status: TaskStatus,
    /// Token (page table root) of the application address space.
    pub memory_token: usize,
    /// Physical page number of the trap context.
    pub trap_cx_ppn: usize,
    /// Size (top address) of the program loaded from the ELF file.
    pub base_size: usize,
    /// Bottom of the heap.
    pub heap_bottom: usize,
    /// Program break.
    pub program_brk: usize,
    /// Syscall counters.
    pub syscall_cnt: CountSyscall,
}

/// The program break a resize request asks for.
pub open spec fn requested_brk(program_brk: usize, size: i32) -> int {
    (program_brk as isize) + (size as isize)
}

/// The program break and the result after a resize request, given whether
/// the address space could be resized.
pub open spec fn brk_outcome(program_brk: usize, heap_bottom: usize, size: i32, resized: bool) -> (usize, Option<usize>) {
    let new_brk = requested_brk(program_brk, size);
    if new_brk < heap_bottom as isize || !resized {
        (program_brk, None)
    } else {
        (new_brk as isize as usize, Some(program_brk))
    }
}

impl TaskControlBlock {
    /// The token of the task's address space.
    pub fn get_user_token(&self) -> (token: usize)
        ensures
            token == self.memory_token,
    {
        self.memory_token
    }

    /// A task just built from an ELF file, ready to run: `user_sp` is where
    /// its user stack starts, which is also the bottom of its heap.
    pub fn new(memory_token: usize, user_sp: usize, trap_cx_ppn: usize, kernel_stack_top: usize) -> (tcb: Self)
        ensures
            tcb.task_status == TaskStatus::Ready,
            tcb.kernel_stack_top == kernel_stack_top,
            tcb.memory_token == memory_token,
            tcb.trap_cx_ppn == trap_cx_ppn,
            tcb.base_size == user_sp,
            tcb.heap_bottom == user_sp,
            tcb.program_brk == user_sp,
            forall|syscall_id: usize| is_counted_syscall(syscall_id) ==> #[trigger] tcb.syscall_cnt.count(syscall_id) == 0,
    {
        let task_status = TaskStatus::Ready;
        let new_syscall_cnt = CountSyscall::zero_init();
        TaskControlBlock {
            task_status,
            kernel_stack_top,
            memory_token,
            trap_cx_ppn,
            base_size: user_sp,
            heap_bottom: user_sp,
            program_brk: user_sp,
            syscall_cnt: new_syscall_cnt,
        }
    }

    /// The break a request of `size` bytes aims at, when it does not go below
    /// the heap bottom, and whether the address space is to be shrunk to it
    /// (`size` negative) or grown to it; the outcome of that resize is then
    /// handed to `change_program_brk`.
    pub fn brk_target(&self, size: i32) -> (target: Option<(usize, bool)>)
        requires
            isize::MIN <= requested_brk(self.program_brk, size) <= isize::MAX,
        ensures
            requested_brk(self.program_brk, size) < self.heap_bottom as isize ==> target is None,
            requested_brk(self.program_brk, size) >= self.heap_bottom as isize
                ==> target == Some((requested_brk(self.program_brk, size) as isize as usize, size < 0)),
    {
        let new_brk = self.program_brk as isize + size as isize;
        if new_brk < self.heap_bottom as isize {
            None
        } else {
            Some((new_brk as usize, size < 0))
        }
    }

    /// Moves the program break by `size` bytes; `resized` says whether the
    /// address space could be shrunk or grown to the new break. Returns the
    /// old break, or `None` when the break would go below the heap bottom or
    /// the address space could not be resized.
    pub fn change_program_brk(&mut self, size: i32, resized: bool) -> (r: Option<usize>)
        requires
            isize::MIN <= requested_brk(old(self).program_brk, size) <= isize::MAX,
        ensures
            (final(self).program_brk, r) == brk_outcome(old(self).program_brk, old(self).heap_bottom, size, resized),
            final(self).heap_bottom == old(self).heap_bottom,
            final(self).base_size == old(self).base_size,
            final(self).task_status == old(self).task_status,
            final(self).memory_token == old(self).memory_token,
            final(self).trap_cx_ppn == old(self).trap_cx_ppn,
            final(self).kernel_stack_top == old(self).kernel_stack_top,
            final(self).syscall_cnt == old(self).syscall_cnt,
            old(self).heap_bottom <= old(self).program_brk && old(self).heap_bottom <= isize::MAX
                ==> final(self).heap_bottom <= final(self).program_brk,
    {
        let old_break = self.program_brk;
        let new_brk = self.program_brk as isize + size as isize;
        if new_brk < self.heap_bottom as isize {
            return None;
        }
        if resized {
            self.program_brk = new_brk as usize;
            Some(old_break)
        } else {
            None
        }
    }
}

/// Growing the heap and shrinking it back by the same amount, both resizes
/// succeeding, returns the break to where it was.
pub proof fn lemma_brk_grow_then_shrink(program_brk: usize, heap_bottom: usize, size: i32)
    requires
        size >= 0,
        program_brk <= isize::MAX,
        heap_bottom <= program_brk,
        program_brk + size <= isize::MAX,
    ensures
        ({
            let (grown, r1) = brk_outcome(program_brk, heap_bottom, size, true);
            let (back, r2) = brk_outcome(grown, heap_bottom, -size as i32, true);
            &&& r1 == Some(program_brk)
            &&& grown == program_brk + size
            &&& r2 == Some(grown)
            &&& back == program_brk
        }),
{
}

} // verus!
