# rcore_os

Verified models of the synchronisation and process-management parts of a
small RISC-V teaching kernel, written in Verus.

- `src/sync/` — the two mutexes (spinning and blocking with FIFO hand-over),
  the counting semaphore, and the deadlock detection run before a thread
  waits on a lock or semaphore (`check_deadlock_ok`), with `ProcessSync`
  composing them over a process's mutex, semaphore and thread tables.
  Operations that would wait report it (`TryStep`, `bool` results, the task
  to wake) and leave the waiting to the scheduler.
- `src/task.rs` — the task control block's values: status, heap break and
  per-syscall counters.
- `src/syscall.rs` — the process syscalls, as computations on the values the
  kernel hands them (the current time, the user buffer's per-page pieces,
  the child list) and returning what the kernel is to do.
- `app/lib.rs` — glue against the kernel services (scheduler, memory manager,
  timer) that runs the waiting loops and carries out the plans.
