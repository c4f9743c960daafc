//! Verified models of the synchronisation primitives, deadlock detection,
//! per-task bookkeeping and process syscalls of a small teaching kernel.
use vstd::prelude::*;

pub mod sync;
pub mod syscall;
pub mod task;

verus! {

} // verus!
