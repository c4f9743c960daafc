//! Process management syscalls.
use vstd::prelude::*;
use vstd::arithmetic::power2::pow2;
use crate::task::{brk_outcome, requested_brk, TaskControlBlock};

verus! {

pub const SYSCALL_WRITE: usize = 64;
pub const SYSCALL_EXIT: usize = 93;
pub const SYSCALL_YIELD: usize = 124;
pub const SYSCALL_GET_TIME: usize = 169;
pub const SYSCALL_SBRK: usize = 214;
pub const SYSCALL_MUNMAP: usize = 215;
pub const SYSCALL_MMAP: usize = 222;
pub const SYSCALL_TRACE: usize = 410;

/// Number of bytes in a page.
pub const PAGE_SIZE: usize = 4096;

/// A time as seconds and microseconds.
#[derive(Debug)]
pub struct TimeVal {
    pub sec: usize,
    pub usec: usize,
}

/// Byte `k` of `x`, least significant first.
pub open spec fn le_byte(x: usize, k: int) -> u8 {
    ((x >> ((8 * k) as usize)) & 0xffusize) as u8
}

/// The number of bytes of a `usize`.
pub open spec fn word_bytes() -> int {
    vstd::layout::size_of::<usize>() as int
}

/// Byte `k` of a `TimeVal` for `us` microseconds, laid out as two words,
/// seconds then microseconds, each least significant byte first.
pub open spec fn time_val_byte(us: usize, k: int) -> u8 {
    if k < word_bytes() {
        le_byte(us / 1_000_000, k)
    } else {
        le_byte(us % 1_000_000, k - word_bytes())
    }
}

/// Byte `k` of `x` is the `k`-th base-256 digit of `x`.
pub proof fn lemma_le_byte_is_digit(x: usize, k: int)
    requires
        0 <= k,
        8 * k < usize::BITS,
    ensures
        le_byte(x, k) as int == (x as nat / pow2((8 * k) as nat)) % 256,
{
    let sh = (8 * k) as usize;
    vstd::bits::lemma_usize_shr_is_div(x, sh);
    let y = x >> sh;
    assert(((y & 0xffusize) as u8) as usize == y % 256) by (bit_vector);
}

/// The bytes written for `us` microseconds are those of a `TimeVal` that
/// denotes exactly that time: the seconds word holds `sec` and the
/// microseconds word `usec` for the `sec`, `usec` with
/// `sec * 1_000_000 + usec == us` and `usec < 1_000_000`.
pub proof fn lemma_time_val_denotes_time(us: usize, sec: usize, usec: usize, k: int)
    requires
        sec * 1_000_000 + usec == us,
        usec < 1_000_000,
        0 <= k < word_bytes(),
    ensures
        time_val_byte(us, k) as int == (sec as nat / pow2((8 * k) as nat)) % 256,
        time_val_byte(us, word_bytes() + k) as int == (usec as nat / pow2((8 * k) as nat)) % 256,
{
    broadcast use vstd::layout::layout_of_primitives;
    assert(us / 1_000_000 == sec && us % 1_000_000 == usec) by {
        vstd::arithmetic::div_mod::lemma_fundamental_div_mod_converse(us as int, 1_000_000, sec as int, usec as int);
    }
    lemma_le_byte_is_digit(sec, k);
    lemma_le_byte_is_digit(usec, k);
}

/// How many bytes of a buffer starting at `ts` lie in its first page.
pub open spec fn first_page_bytes(ts: usize) -> int {
    PAGE_SIZE - ts % PAGE_SIZE
}

/// Where byte `k` of a buffer starting at `ts` lands in the per-page pieces
/// of that buffer: which piece, and where in it.
pub open spec fn piece_of(ts: usize, k: int) -> (int, int) {
    if k < first_page_bytes(ts) { (0, k) } else { (1, k - first_page_bytes(ts)) }
}

/// Writes `v` at `arrays[a][b]`.
fn set_byte(arrays: &mut Vec<Vec<u8>>, a: usize, b: usize, v: u8)
    requires
        a < old(arrays).len(),
        b < old(arrays)@[a as int].len(),
    ensures
        final(arrays)@.len() == old(arrays)@.len(),
        forall|x: int| 0 <= x < final(arrays)@.len() && x != a ==> #[trigger] final(arrays)@[x] == old(arrays)@[x],
        final(arrays)@[a as int]@ == old(arrays)@[a as int]@.update(b as int, v),
{
    let mut row = arrays.remove(a);
    row.set(b, v);
    arrays.insert(a, row);
}

proof fn lemma_page_bounds(v: int)
    requires
        v >= 0,
    ensures
        (v / 4096) * 4096 <= v < (v / 4096) * 4096 + 4096,
        ((v / 4096) * 4096) % 4096 == 0,
{
    assert((v / 4096) * 4096 <= v < (v / 4096) * 4096 + 4096) by (nonlinear_arith)
        requires
            v >= 0,
    ;
    assert(((v / 4096) * 4096) % 4096 == 0) by (nonlinear_arith);
}

proof fn lemma_same_page(base: int)
    requires
        base >= 0,
        base % 4096 == 0,
    ensures
        forall|v: int| base <= v < base + 4096 ==> #[trigger] (v / 4096) == base / 4096,
        (base + 4096) / 4096 == base / 4096 + 1,
{
    assert forall|v: int| base <= v < base + 4096 implies #[trigger] (v / 4096) == base / 4096 by {
        assert(v / 4096 == base / 4096) by (nonlinear_arith)
            requires
                base % 4096 == 0,
                base <= v < base + 4096,
        ;
    }
    assert((base + 4096) / 4096 == base / 4096 + 1) by (nonlinear_arith)
        requires
            base % 4096 == 0,
    ;
}

proof fn lemma_byte_of_mask(x: usize, mask: usize, s: usize)
    requires
        s + 8 <= usize::BITS,
        mask == 0xffusize << s,
    ensures
        ((x & mask) >> s) as u8 == ((x >> s) & 0xffusize) as u8,
{
    assert(((x & mask) >> s) as u8 == ((x >> s) & 0xffusize) as u8) by (bit_vector)
        requires
            s + 8 <= usize::BITS,
            mask == 0xffusize << s,
    ;
}

proof fn lemma_mask_shift(mask: usize, s: usize)
    requires
        s + 16 <= usize::BITS,
        mask == 0xffusize << s,
    ensures
        mask << 8usize == 0xffusize << ((s + 8) as usize),
{
    assert(mask << 8usize == 0xffusize << ((s + 8) as usize)) by (bit_vector)
        requires
            s + 16 <= usize::BITS,
            mask == 0xffusize << s,
    ;
}

/// Writes the `TimeVal` of `us` microseconds to the user buffer at `ts`,
/// given as its per-page pieces `bytes_arrays` (the part in the page of
/// `ts`, then the part in the next page when the buffer crosses a page
/// boundary). Returns 0.
pub fn sys_get_time(us: usize, ts: usize, bytes_arrays: &mut Vec<Vec<u8>>) -> (r: isize)
    requires
        ts + 2 * word_bytes() <= usize::MAX,
        old(bytes_arrays)@.len() >= 1,
        old(bytes_arrays)@[0]@.len() >= (if 2 * word_bytes() < first_page_bytes(ts) { 2 * word_bytes() } else { first_page_bytes(ts) }),
        2 * word_bytes() > first_page_bytes(ts) ==> {
            &&& old(bytes_arrays)@.len() >= 2
            &&& old(bytes_arrays)@[1]@.len() >= 2 * word_bytes() - first_page_bytes(ts)
        },
    ensures
        r == 0,
        final(bytes_arrays)@.len() == old(bytes_arrays)@.len(),
        forall|x: int| 2 <= x < final(bytes_arrays)@.len() ==> #[trigger] final(bytes_arrays)@[x] == old(bytes_arrays)@[x],
        forall|x: int| 0 <= x < 2 && x < final(bytes_arrays)@.len() ==> #[trigger] final(bytes_arrays)@[x]@.len() == old(bytes_arrays)@[x]@.len(),
        forall|k: int| 0 <= k < 2 * word_bytes() ==>
            final(bytes_arrays)@[piece_of(ts, k).0]@[piece_of(ts, k).1] == #[trigger] time_val_byte(us, k),
        forall|x: int, y: int| 0 <= x < 2 && x < final(bytes_arrays)@.len() && 0 <= y < final(bytes_arrays)@[x]@.len()
            && !(exists|k: int| 0 <= k < 2 * word_bytes() && piece_of(ts, k) == (x, y))
            ==> #[trigger] final(bytes_arrays)@[x]@[y] == old(bytes_arrays)@[x]@[y],
{
    broadcast use vstd::layout::layout_of_primitives;
    let sec = us / 1_000_000;
    let usec = us % 1_000_000;
    let mut va_start = ts;
    let mut va = va_start;
    let mut page_start = (va / PAGE_SIZE) * PAGE_SIZE;
    let word = core::mem::size_of::<usize>();
    let end_va_sec = va + word;
    let mut mask: usize = 0b11111111;
    let mut i: usize = 0;
    let mut cur: usize = 0;
    let ghost page0 = page_start as int;
    let ghost first = first_page_bytes(ts);
    assert(page0 <= ts < page0 + PAGE_SIZE);
    assert(first == page0 + PAGE_SIZE - ts);
    assert(0b11111111usize == 0xffusize << 0usize) by (bit_vector);
    proof {
        lemma_page_bounds(ts as int);
        lemma_same_page(page0);
        lemma_same_page(page0 + PAGE_SIZE);
        assert(usize::BITS == 32 || usize::BITS == 64);
    }
    while va < end_va_sec
        invariant
            word == word_bytes(),
            word * 8 == usize::BITS,
            sec == us / 1_000_000,
            usec == us % 1_000_000,
            ts + 2 * word_bytes() <= usize::MAX,
            old(bytes_arrays)@.len() >= 1,
            old(bytes_arrays)@[0]@.len() >= (if 2 * word_bytes() < first_page_bytes(ts) { 2 * word_bytes() } else { first_page_bytes(ts) }),
            2 * word_bytes() > first_page_bytes(ts) ==> {
                &&& old(bytes_arrays)@.len() >= 2
                &&& old(bytes_arrays)@[1]@.len() >= 2 * word_bytes() - first_page_bytes(ts)
            },
            usize::BITS == 32 || usize::BITS == 64,
            forall|v: int| page0 <= v < page0 + PAGE_SIZE ==> #[trigger] (v / 4096) == page0 / 4096,
            forall|v: int| page0 + PAGE_SIZE <= v < page0 + 2 * PAGE_SIZE ==> #[trigger] (v / 4096) == (page0 + PAGE_SIZE) / 4096,
            (page0 + PAGE_SIZE) / 4096 == page0 / 4096 + 1,
            end_va_sec == ts + word,
            ts <= va <= end_va_sec,
            i == va - ts,
            i < word ==> mask == 0xffusize << ((8 * i) as usize),
            page0 <= ts < page0 + PAGE_SIZE,
            first == page0 + PAGE_SIZE - ts,
            page0 % (PAGE_SIZE as int) == 0,
            cur == 0 ==> va_start == ts && page_start == page0 && va <= page0 + PAGE_SIZE,
            cur == 1 ==> va_start == page_start && page_start == page0 + PAGE_SIZE && va > page0 + PAGE_SIZE,
            cur <= 1,
            bytes_arrays@.len() == old(bytes_arrays)@.len(),
            forall|x: int| 2 <= x < bytes_arrays@.len() ==> #[trigger] bytes_arrays@[x] == old(bytes_arrays)@[x],
            forall|x: int| 0 <= x < 2 && x < bytes_arrays@.len() ==> #[trigger] bytes_arrays@[x]@.len() == old(bytes_arrays)@[x]@.len(),
            forall|k: int| 0 <= k < i ==>
                bytes_arrays@[piece_of(ts, k).0]@[piece_of(ts, k).1] == #[trigger] time_val_byte(us, k),
            forall|x: int, y: int| 0 <= x < 2 && x < bytes_arrays@.len() && 0 <= y < bytes_arrays@[x]@.len()
                && !(exists|k: int| 0 <= k < i && piece_of(ts, k) == (x, y))
                ==> #[trigger] bytes_arrays@[x]@[y] == old(bytes_arrays)@[x]@[y],
        decreases end_va_sec - va,
    {
        if va / PAGE_SIZE != page_start / PAGE_SIZE {
            page_start = page_start + PAGE_SIZE;
            cur = 1;
            va_start = page_start;
        }
        assert(cur == 0 <==> i < first);
        proof {
            lemma_byte_of_mask(sec, mask, (8 * i) as usize);
        }
        let b = ((sec & mask) >> (i * 8)) as u8;
        let ghost before = bytes_arrays@;
        let ghost pos = i as int;
        assert(piece_of(ts, pos) == (cur as int, (va - va_start) as int));
        assert(b == time_val_byte(us, pos));
        set_byte(bytes_arrays, cur, va - va_start, b);
        proof {
            assert forall|k: int| 0 <= k < pos + 1 implies
                bytes_arrays@[piece_of(ts, k).0]@[piece_of(ts, k).1] == #[trigger] time_val_byte(us, k) by {
                if k < pos {
                    assert(piece_of(ts, k) != piece_of(ts, pos));
                    assert(before[piece_of(ts, k).0]@[piece_of(ts, k).1] == time_val_byte(us, k));
                }
            }
            assert forall|x: int, y: int| 0 <= x < 2 && x < bytes_arrays@.len() && 0 <= y < bytes_arrays@[x]@.len()
                && !(exists|k: int| 0 <= k < pos + 1 && piece_of(ts, k) == (x, y))
                implies #[trigger] bytes_arrays@[x]@[y] == old(bytes_arrays)@[x]@[y] by {
                assert(piece_of(ts, pos) != (x, y));
                assert(!(exists|k: int| 0 <= k < pos && piece_of(ts, k) == (x, y))) by {
                    if exists|k: int| 0 <= k < pos && piece_of(ts, k) == (x, y) {
                        let k = choose|k: int| 0 <= k < pos && piece_of(ts, k) == (x, y);
                        assert(0 <= k < pos + 1 && piece_of(ts, k) == (x, y));
                    }
                }
                assert(before[x]@[y] == old(bytes_arrays)@[x]@[y]);
            }
        }
        if i + 1 < word {
            proof {
                lemma_mask_shift(mask, (8 * i) as usize);
            }
        }
        mask = mask << 8;
        va = va + 1;
        i = i + 1;
    }
    mask = 0b11111111;
    i = 0;
    let end_va_usec = end_va_sec + word;
    while va < end_va_usec
        invariant
            word == word_bytes(),
            word * 8 == usize::BITS,
            sec == us / 1_000_000,
            usec == us % 1_000_000,
            ts + 2 * word_bytes() <= usize::MAX,
            old(bytes_arrays)@.len() >= 1,
            old(bytes_arrays)@[0]@.len() >= (if 2 * word_bytes() < first_page_bytes(ts) { 2 * word_bytes() } else { first_page_bytes(ts) }),
            2 * word_bytes() > first_page_bytes(ts) ==> {
                &&& old(bytes_arrays)@.len() >= 2
                &&& old(bytes_arrays)@[1]@.len() >= 2 * word_bytes() - first_page_bytes(ts)
            },
            usize::BITS == 32 || usize::BITS == 64,
            forall|v: int| page0 <= v < page0 + PAGE_SIZE ==> #[trigger] (v / 4096) == page0 / 4096,
            forall|v: int| page0 + PAGE_SIZE <= v < page0 + 2 * PAGE_SIZE ==> #[trigger] (v / 4096) == (page0 + PAGE_SIZE) / 4096,
            (page0 + PAGE_SIZE) / 4096 == page0 / 4096 + 1,
            end_va_usec == ts + 2 * word,
            ts + word <= va <= end_va_usec,
            i == va - ts - word,
            i < word ==> mask == 0xffusize << ((8 * i) as usize),
            page0 <= ts < page0 + PAGE_SIZE,
            first == page0 + PAGE_SIZE - ts,
            page0 % (PAGE_SIZE as int) == 0,
            cur == 0 ==> va_start == ts && page_start == page0 && va <= page0 + PAGE_SIZE,
            cur == 1 ==> va_start == page_start && page_start == page0 + PAGE_SIZE && va > page0 + PAGE_SIZE,
            cur <= 1,
            bytes_arrays@.len() == old(bytes_arrays)@.len(),
            forall|x: int| 2 <= x < bytes_arrays@.len() ==> #[trigger] bytes_arrays@[x] == old(bytes_arrays)@[x],
            forall|x: int| 0 <= x < 2 && x < bytes_arrays@.len() ==> #[trigger] bytes_arrays@[x]@.len() == old(bytes_arrays)@[x]@.len(),
            forall|k: int| 0 <= k < va - ts ==>
                bytes_arrays@[piece_of(ts, k).0]@[piece_of(ts, k).1] == #[trigger] time_val_byte(us, k),
            forall|x: int, y: int| 0 <= x < 2 && x < bytes_arrays@.len() && 0 <= y < bytes_arrays@[x]@.len()
                && !(exists|k: int| 0 <= k < va - ts && piece_of(ts, k) == (x, y))
                ==> #[trigger] bytes_arrays@[x]@[y] == old(bytes_arrays)@[x]@[y],
        decreases end_va_usec - va,
    {
        if va / PAGE_SIZE != page_start / PAGE_SIZE {
            page_start = page_start + PAGE_SIZE;
            cur = 1;
            va_start = page_start;
        }
        proof {
            lemma_byte_of_mask(usec, mask, (8 * i) as usize);
        }
        let b = ((usec & mask) >> (i * 8)) as u8;
        let ghost before = bytes_arrays@;
        let ghost pos = (i + word) as int;
        assert(piece_of(ts, pos) == (cur as int, (va - va_start) as int));
        assert(b == time_val_byte(us, pos));
        set_byte(bytes_arrays, cur, va - va_start, b);
        proof {
            assert forall|k: int| 0 <= k < pos + 1 implies
                bytes_arrays@[piece_of(ts, k).0]@[piece_of(ts, k).1] == #[trigger] time_val_byte(us, k) by {
                if k < pos {
                    assert(piece_of(ts, k) != piece_of(ts, pos));
                    assert(before[piece_of(ts, k).0]@[piece_of(ts, k).1] == time_val_byte(us, k));
                }
            }
            assert forall|x: int, y: int| 0 <= x < 2 && x < bytes_arrays@.len() && 0 <= y < bytes_arrays@[x]@.len()
                && !(exists|k: int| 0 <= k < pos + 1 && piece_of(ts, k) == (x, y))
                implies #[trigger] bytes_arrays@[x]@[y] == old(bytes_arrays)@[x]@[y] by {
                assert(piece_of(ts, pos) != (x, y));
                assert(!(exists|k: int| 0 <= k < pos && piece_of(ts, k) == (x, y))) by {
                    if exists|k: int| 0 <= k < pos && piece_of(ts, k) == (x, y) {
                        let k = choose|k: int| 0 <= k < pos && piece_of(ts, k) == (x, y);
                        assert(0 <= k < pos + 1 && piece_of(ts, k) == (x, y));
                    }
                }
                assert(before[x]@[y] == old(bytes_arrays)@[x]@[y]);
            }
        }
        if i + 1 < word {
            proof {
                lemma_mask_shift(mask, (8 * i) as usize);
            }
        }
        mask = mask << 8;
        va = va + 1;
        i = i + 1;
    }
    0
}


/// A child process as its parent sees it.
pub struct ChildProc {
    pub pid: usize,
    /// Whether it has exited and waits to be reaped.
    pub zombie: bool,
    pub exit_code: i32,
}

/// Whether a child is one that `sys_waitpid(pid, ..)` asks about.
pub open spec fn pid_matches(pid: isize, child: ChildProc) -> bool {
    pid == -1 || pid as usize == child.pid
}

/// Whether `sys_waitpid(pid, ..)` can reap the child.
pub open spec fn reapable(pid: isize, child: ChildProc) -> bool {
    child.zombie && pid_matches(pid, child)
}

/// `sys_waitpid(pid, ..)` can reap exactly the children that have exited and
/// that it asks about: any child for -1, else the child with that pid,
/// whatever their exit code.
pub proof fn lemma_reapable_is_exited_and_asked(pid: isize, child: ChildProc)
    ensures
        reapable(pid, child) <==> (child.zombie && (pid == -1 || pid as usize == child.pid)),
        pid_matches(pid, child) <==> (pid == -1 || pid as usize == child.pid),
{
}

/// Waits for the child `pid` (any child when `pid` is -1): -1 when there is
/// no such child, -2 when there is but none of them has exited; otherwise
/// the first such child that has exited is removed from `children`, and
/// its pid is returned with the exit code to store at the caller's pointer.
pub fn sys_waitpid(children: &mut Vec<ChildProc>, pid: isize) -> (r: (isize, Option<i32>))
    ensures
        r.1 is Some <==> exists|j: int| 0 <= j < old(children)@.len() && (#[trigger] old(children)@[j]).zombie
            && (pid == -1 || pid as usize == old(children)@[j].pid),
        r.1 is Some ==> exists|idx: int| {
            &&& 0 <= idx < old(children)@.len()
            &&& (#[trigger] old(children)@[idx]).zombie
            &&& (pid == -1 || pid as usize == old(children)@[idx].pid)
            &&& r == (old(children)@[idx].pid as isize, Some(old(children)@[idx].exit_code))
            &&& final(children)@ == old(children)@.remove(idx)
        },
        !(exists|j: int| 0 <= j < old(children)@.len() && pid_matches(pid, #[trigger] old(children)@[j])) ==> {
            &&& r == (-1isize, None::<i32>)
            &&& final(children)@ == old(children)@
        },
        (exists|j: int| 0 <= j < old(children)@.len() && pid_matches(pid, #[trigger] old(children)@[j]))
            && !(exists|j: int| 0 <= j < old(children)@.len() && reapable(pid, #[trigger] old(children)@[j])) ==> {
            &&& r == (-2isize, None::<i32>)
            &&& final(children)@ == old(children)@
        },
        (exists|j: int| 0 <= j < old(children)@.len() && reapable(pid, #[trigger] old(children)@[j])) ==> exists|idx: int| {
            &&& 0 <= idx < old(children)@.len()
            &&& reapable(pid, #[trigger] old(children)@[idx])
            &&& forall|j: int| 0 <= j < idx ==> !reapable(pid, #[trigger] old(children)@[j])
            &&& final(children)@ == old(children)@.remove(idx)
            &&& r == (old(children)@[idx].pid as isize, Some(old(children)@[idx].exit_code))
        },
{
    let mut any = false;
    let mut k: usize = 0;
    while k < children.len()
        invariant
            k <= children.len(),
            children@ == old(children)@,
            any == exists|j: int| 0 <= j < k && pid_matches(pid, #[trigger] children@[j]),
        decreases children.len() - k,
    {
        if pid == -1 || pid as usize == children[k].pid {
            any = true;
            assert(pid_matches(pid, children@[k as int]));
        }
        assert(any == exists|j: int| 0 <= j < k + 1 && pid_matches(pid, #[trigger] children@[j])) by {
            if exists|j: int| 0 <= j < k + 1 && pid_matches(pid, #[trigger] children@[j]) {
                let j = choose|j: int| 0 <= j < k + 1 && pid_matches(pid, #[trigger] children@[j]);
                if j < k {
                    assert(0 <= j < k && pid_matches(pid, children@[j]));
                }
            }
        }
        k = k + 1;
    }
    if !any {
        return (-1, None);
    }
    let mut k: usize = 0;
    while k < children.len()
        invariant
            k <= children.len(),
            children@ == old(children)@,
            forall|j: int| 0 <= j < k ==> !reapable(pid, #[trigger] children@[j]),
        decreases children.len() - k,
    {
        if children[k].zombie && (pid == -1 || pid as usize == children[k].pid) {
            let child = children.remove(k);
            let found_pid = child.pid;
            let exit_code = child.exit_code;
            assert(reapable(pid, old(children)@[k as int]));
            return (found_pid as isize, Some(exit_code));
        }
        k = k + 1;
    }
    (-2, None)
}

/// A child just spawned is waited for as a running child: waiting for its
/// pid gives -2 until it exits, when no other child with that pid has exited.
pub proof fn lemma_spawned_child_is_running(children: Seq<ChildProc>, new_pid: usize)
    requires
        new_pid <= isize::MAX,
        forall|j: int| 0 <= j < children.len() ==> !reapable(new_pid as isize, #[trigger] children[j]),
    ensures
        ({
            let after = children.push(ChildProc { pid: new_pid, zombie: false, exit_code: 0 });
            &&& exists|j: int| 0 <= j < after.len() && pid_matches(new_pid as isize, #[trigger] after[j])
            &&& !(exists|j: int| 0 <= j < after.len() && reapable(new_pid as isize, #[trigger] after[j]))
        }),
{
    let after = children.push(ChildProc { pid: new_pid, zombie: false, exit_code: 0 });
    assert(pid_matches(new_pid as isize, after[children.len() as int]));
    assert forall|j: int| 0 <= j < after.len() implies !reapable(new_pid as isize, #[trigger] after[j]) by {
        if j < children.len() {
            assert(after[j] == children[j]);
        }
    }
}

/// Starts a child from the application found under the requested path:
/// -1 when there is none; otherwise the child, with pid `new_pid`, is
/// recorded among `children` and its pid returned.
pub fn sys_spawn(children: &mut Vec<ChildProc>, app_found: bool, new_pid: usize) -> (r: isize)
    ensures
        !app_found ==> r == -1 && final(children)@ == old(children)@,
        app_found ==> {
            &&& r == new_pid as isize
            &&& final(children)@ == old(children)@.push(ChildProc { pid: new_pid, zombie: false, exit_code: 0 })
        },
{
    if app_found {
        children.push(ChildProc { pid: new_pid, zombie: false, exit_code: 0 });
        new_pid as isize
    } else {
        -1
    }
}

/// Forks the current process into a child with pid `new_pid`, recorded
/// among `children`. Returns what the parent gets (the child's pid) and
/// what the child gets (0) from the call.
pub fn sys_fork(children: &mut Vec<ChildProc>, new_pid: usize) -> (r: (isize, usize))
    ensures
        r == (new_pid as isize, 0usize),
        final(children)@ == old(children)@.push(ChildProc { pid: new_pid, zombie: false, exit_code: 0 }),
{
    children.push(ChildProc { pid: new_pid, zombie: false, exit_code: 0 });
    (new_pid as isize, 0)
}

/// Replaces the program of the current process by the application found
/// under the requested path: 0, or -1 when there is none.
pub fn sys_exec(app_found: bool) -> (r: isize)
    ensures
        r == (if app_found { 0isize } else { -1isize }),
{
    if app_found { 0 } else { -1 }
}

/// The pid of the current process.
pub fn sys_getpid(pid: usize) -> (r: isize)
    ensures
        r == pid as isize,
{
    pid as isize
}

/// Gives the processor up; 0 once the task runs again.
pub fn sys_yield() -> (r: isize)
    ensures
        r == 0,
{
    0
}

/// Setting a priority is not supported: -1.
pub fn sys_set_priority(_prio: isize) -> (r: isize)
    ensures
        r == -1,
{
    -1
}

/// Moves the program break of `task` by `size` bytes; `resized` says
/// whether the address space could be resized to the new break. Returns
/// the old break, or -1.
pub fn sys_sbrk(task: &mut TaskControlBlock, size: i32, resized: bool) -> (r: isize)
    requires
        isize::MIN <= requested_brk(old(task).program_brk, size) <= isize::MAX,
    ensures
        ({
            let (brk, res) = brk_outcome(old(task).program_brk, old(task).heap_bottom, size, resized);
            &&& final(task).program_brk == brk
            &&& r == (match res { Some(old_brk) => old_brk as isize, None => -1isize })
        }),
        final(task).heap_bottom == old(task).heap_bottom,
{
    if let Some(old_brk) = task.change_program_brk(size, resized) {
        old_brk as isize
    } else {
        -1
    }
}

/// Access rights of a mapping.
pub struct MapPerm {
    pub r: bool,
    pub w: bool,
    pub x: bool,
}

/// What `sys_mmap` asks of the memory manager.
pub enum MmapPlan {
    /// Bad arguments: the call returns -1.
    Reject,
    /// Map the pages from `start` to `end` with `perm`; the call returns what
    /// the mapping returns.
    MapRange { start: usize, end: usize, perm: MapPerm },
}

/// What `sys_munmap` asks of the memory manager.
pub enum MunmapPlan {
    /// Bad arguments: the call returns -1.
    Reject,
    /// Unmap `pages` pages from page number `start_vpn`; the call returns
    /// what the unmapping returns.
    Unmap { start_vpn: usize, pages: usize },
}

/// `len` rounded up to whole pages.
pub open spec fn page_round_up(len: int) -> int {
    ((len + PAGE_SIZE - 1) / (PAGE_SIZE as int)) * PAGE_SIZE
}

/// Whether `sys_mmap` accepts its arguments: `start` page aligned, `port`
/// made of read, write and execute bits only, and not of none.
pub open spec fn mmap_args_ok(start: usize, port: usize) -> bool {
    start % PAGE_SIZE == 0 && port & !0x7usize == 0 && port & 0x7usize != 0
}

/// `sys_mmap` accepts exactly a page-aligned `start` with rights `port`
/// between 1 and 7, and grants read, write and execute by bits 0, 1 and 2
/// of `port`.
pub proof fn lemma_mmap_accepts_rights(start: usize, port: usize)
    ensures
        mmap_args_ok(start, port) <==> (start % 4096 == 0 && 1 <= port <= 7),
        (port & 1 != 0) <==> (port % 2 == 1),
        (port & 2 != 0) <==> ((port / 2) % 2 == 1),
        (port & 4 != 0) <==> ((port / 4) % 2 == 1),
{
    assert((port & !0x7usize == 0 && port & 0x7usize != 0) <==> (1 <= port && port <= 7)) by (bit_vector);
    assert((port & 1 != 0) <==> (port % 2 == 1)) by (bit_vector);
    assert((port & 2 != 0) <==> ((port / 2) % 2 == 1)) by (bit_vector);
    assert((port & 4 != 0) <==> ((port / 4) % 2 == 1)) by (bit_vector);
}

/// Plans a mapping of `len` bytes at `start`, with the rights in the low
/// three bits of `port` (read, write, execute).
pub fn sys_mmap(start: usize, len: usize, port: usize) -> (plan: MmapPlan)
    requires
        mmap_args_ok(start, port) ==> {
            &&& len > 0
            &&& len + PAGE_SIZE <= usize::MAX
            &&& start + page_round_up(len as int) - PAGE_SIZE <= usize::MAX
        },
    ensures
        !mmap_args_ok(start, port) ==> plan is Reject,
        (start % PAGE_SIZE == 0 && 1 <= port <= 7) <==> plan is MapRange,
        mmap_args_ok(start, port) ==> plan == (MmapPlan::MapRange {
            start,
            end: (start + page_round_up(len as int) - PAGE_SIZE) as usize,
            perm: MapPerm { r: port & 1 != 0, w: port & 2 != 0, x: port & 4 != 0 },
        }),
{
    proof {
        lemma_mmap_accepts_rights(start, port);
    }
    if start % PAGE_SIZE != 0 || port & !0x7 != 0 || port & 0x7 == 0 {
        return MmapPlan::Reject;
    }
    proof {
        lemma_round_up_bounds(len as int);
    }
    let length = ((len + PAGE_SIZE - 1) / PAGE_SIZE) * PAGE_SIZE;
    let end = start + (length - PAGE_SIZE);
    let perm = MapPerm { r: port & 0b1 != 0, w: port & 0b10 != 0, x: port & 0b100 != 0 };
    MmapPlan::MapRange { start, end, perm }
}

proof fn lemma_round_up_bounds(len: int)
    requires
        len > 0,
    ensures
        PAGE_SIZE <= page_round_up(len),
        len <= page_round_up(len) < len + PAGE_SIZE,
        page_round_up(len) % (PAGE_SIZE as int) == 0,
{
    assert(4096 <= ((len + 4095) / 4096) * 4096) by (nonlinear_arith)
        requires
            len > 0,
    ;
    assert(len <= ((len + 4095) / 4096) * 4096 < len + 4096) by (nonlinear_arith)
        requires
            len > 0,
    ;
    assert((((len + 4095) / 4096) * 4096) % 4096 == 0) by (nonlinear_arith);
}

/// Plans the unmapping of `len` bytes at `start`, rounded up to whole
/// pages; `start` must be page aligned.
pub fn sys_munmap(start: usize, len: usize) -> (plan: MunmapPlan)
    requires
        start % PAGE_SIZE == 0 ==> len + PAGE_SIZE <= usize::MAX,
    ensures
        start % PAGE_SIZE != 0 ==> plan is Reject,
        start % PAGE_SIZE == 0 ==> plan == (MunmapPlan::Unmap {
            start_vpn: start / PAGE_SIZE,
            pages: (page_round_up(len as int) / (PAGE_SIZE as int)) as usize,
        }),
{
    if start % PAGE_SIZE != 0 {
        return MunmapPlan::Reject;
    }
    proof {
        assert(((len + 4095) / 4096) * 4096 <= len + 4095) by (nonlinear_arith);
    }
    let length = ((len + PAGE_SIZE - 1) / PAGE_SIZE) * PAGE_SIZE;
    MunmapPlan::Unmap { start_vpn: start / PAGE_SIZE, pages: length / PAGE_SIZE }
}

} // verus!
