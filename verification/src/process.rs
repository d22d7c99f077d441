//! Process system calls: the checks and conversions they make.
//!
//! What the calls read of the current task (page table entries) comes in as
//! plain values; what they change (user memory, the address space) they
//! hand back as the one step to carry out, so nothing is changed on a path
//! that refuses. The program break and the scheduler, which the calls always
//! use, come in as closures.
use vstd::prelude::*;
use crate::PAGE_SIZE;

verus! {

/// `sys_trace` request: read a byte of user memory.
pub const TRACE_READ: usize = 0;

/// `sys_trace` request: write a byte of user memory.
pub const TRACE_WRITE: usize = 1;

/// `sys_trace` request: how often a system call was made.
pub const TRACE_SYSCALL: usize = 2;

/// Page table entry flag: valid.
pub const PTE_V: u8 = 1;

/// Page table entry flag: readable.
pub const PTE_R: u8 = 2;

/// Page table entry flag: writable.
pub const PTE_W: u8 = 4;

/// Page table entry flag: executable.
pub const PTE_X: u8 = 8;

/// Page table entry flag: accessible from user mode.
pub const PTE_U: u8 = 16;

/// Mask of the bits an Sv39 virtual address keeps.
pub const VA_MASK: u64 = 0x7f_ffff_ffff;

/// Seconds and microseconds, as `sys_get_time` writes them.
#[derive(Clone, Copy, Debug)]
pub struct TimeVal {
    pub sec: usize,
    pub usec: usize,
}

impl TimeVal {
    /// The time `us` microseconds after boot.
    pub fn from_micros(us: usize) -> (t: TimeVal)
        ensures
            t.sec == us / 1_000_000,
            t.usec == us % 1_000_000,
            t.usec < 1_000_000,
            t.sec * 1_000_000 + t.usec == us,
    {
        let t = TimeVal { sec: us / 1_000_000, usec: us % 1_000_000 };
        assert(t.sec * 1_000_000 + t.usec == us) by {
            vstd::arithmetic::div_mod::lemma_fundamental_div_mod(us as int, 1_000_000);
        }
        t
    }
}

/// An address as the page table reads it: its low 39 bits.
pub open spec fn spec_va(va: usize) -> int {
    ((va as u64) & VA_MASK) as int
}

/// Virtual page holding `va`, as the page table counts pages.
pub open spec fn spec_vpn_floor(va: usize) -> int {
    spec_va(va) / PAGE_SIZE as int
}

/// First virtual page at or after `va`.
pub open spec fn spec_vpn_ceil(va: usize) -> int {
    if spec_va(va) == 0 {
        0
    } else {
        (spec_va(va) - 1 + PAGE_SIZE) / PAGE_SIZE as int
    }
}

proof fn lemma_va_bounds(va: usize)
    ensures
        0 <= spec_va(va) <= va,
        spec_va(va) <= VA_MASK,
{
    let x = va as u64;
    assert(x & 0x7f_ffff_ffffu64 <= x) by (bit_vector);
    assert(x & 0x7f_ffff_ffffu64 <= 0x7f_ffff_ffffu64) by (bit_vector);
}

/// Virtual page holding `va`.
pub fn vpn_floor(va: usize) -> (r: usize)
    ensures
        r == spec_vpn_floor(va),
{
    proof {
        lemma_va_bounds(va);
    }
    let v = (va as u64) & VA_MASK;
    (v / 4096) as usize
}

/// First virtual page at or after `va`.
pub fn vpn_ceil(va: usize) -> (r: usize)
    ensures
        r == spec_vpn_ceil(va),
{
    proof {
        lemma_va_bounds(va);
    }
    let v = (va as u64) & VA_MASK;
    if v == 0 {
        0
    } else {
        ((v - 1 + 4096) / 4096) as usize
    }
}

/// The entry's flags let user code do what `perm` names.
pub open spec fn pte_grants(pte: Option<u8>, perm: u8) -> bool {
    match pte {
        Some(f) => f & PTE_V != 0 && f & perm != 0 && f & PTE_U != 0,
        None => false,
    }
}

/// A page is mapped: the entry exists and is valid.
pub open spec fn pte_present(pte: Option<u8>) -> bool {
    match pte {
        Some(f) => f & PTE_V != 0,
        None => false,
    }
}

/// Whether the entry lets user code read its page.
pub fn user_byte_readable(pte: Option<u8>) -> (r: bool)
    ensures
        r == pte_grants(pte, PTE_R),
{
    match pte {
        Some(f) => f & PTE_V != 0 && f & PTE_R != 0 && f & PTE_U != 0,
        None => false,
    }
}

/// Whether the entry lets user code write its page.
pub fn user_byte_writable(pte: Option<u8>) -> (r: bool)
    ensures
        r == pte_grants(pte, PTE_W),
{
    match pte {
        Some(f) => f & PTE_V != 0 && f & PTE_W != 0 && f & PTE_U != 0,
        None => false,
    }
}

/// The current task gives up the processor; `suspend` runs another task.
pub fn sys_yield<F: FnOnce()>(suspend: F) -> (r: isize)
    requires
        call_requires(suspend, ()),
    ensures
        r == 0,
        call_ensures(suspend, (), ()),
{
    suspend();
    0
}

/// What `sys_trace` asks the kernel to do.
#[derive(PartialEq, Eq, Structural, Clone, Copy, Debug)]
pub enum TraceStep {
    /// Nothing to do: the call answers this value.
    Answer(isize),
    /// Read the user byte at this address; the call answers
    /// `trace_read_result` of what was read.
    ReadByte(usize),
    /// Write this byte at this user address; the call answers `status_of`
    /// whether it was written.
    WriteByte(usize, u8),
    /// Count the calls of this system call; the call answers
    /// `trace_count_result` of the count.
    CountSyscall(usize),
}

/// What `sys_trace` asks for: a read or a write of the byte at `id` only
/// when the entry of its page lets user code read or write it.
pub open spec fn trace_step(trace_request: usize, id: usize, data: usize, pte: Option<u8>) -> TraceStep {
    if trace_request == TRACE_READ {
        if pte_grants(pte, PTE_R) {
            TraceStep::ReadByte(id)
        } else {
            TraceStep::Answer(-1isize)
        }
    } else if trace_request == TRACE_WRITE {
        if pte_grants(pte, PTE_W) {
            TraceStep::WriteByte(id, data as u8)
        } else {
            TraceStep::Answer(-1isize)
        }
    } else if trace_request == TRACE_SYSCALL {
        TraceStep::CountSyscall(id)
    } else {
        TraceStep::Answer(-1isize)
    }
}

/// Decides the trace call: read the byte at user address `id`
/// (`TRACE_READ`), write the low byte of `data` there (`TRACE_WRITE`), or
/// count the calls of system call `id` (`TRACE_SYSCALL`). `pte` is the entry
/// of the page of `id` (page `vpn_floor(id)`) in the current task's page
/// table. Nothing is read or written unless the entry lets user code do so;
/// any other request answers -1.
pub fn sys_trace(trace_request: usize, id: usize, data: usize, pte: Option<u8>) -> (step: TraceStep)
    ensures
        step == trace_step(trace_request, id, data, pte),
{
    if trace_request == TRACE_READ {
        if !user_byte_readable(pte) {
            return TraceStep::Answer(-1);
        }
        TraceStep::ReadByte(id)
    } else if trace_request == TRACE_WRITE {
        if !user_byte_writable(pte) {
            return TraceStep::Answer(-1);
        }
        TraceStep::WriteByte(id, data as u8)
    } else if trace_request == TRACE_SYSCALL {
        TraceStep::CountSyscall(id)
    } else {
        TraceStep::Answer(-1)
    }
}

/// Answer of a trace read: the byte, or -1 when the address did not
/// translate.
pub fn trace_read_result(byte: Option<u8>) -> (r: isize)
    ensures
        r == match byte {
            Some(b) => b as isize,
            None => -1isize,
        },
{
    match byte {
        Some(b) => b as isize,
        None => -1,
    }
}

/// Answer of a trace count: the count, as the call's `isize`.
pub fn trace_count_result(times: usize) -> (r: isize)
    ensures
        r == times as isize,
{
    times as isize
}

/// Answer of a call whose work succeeded or failed: 0 or -1.
pub fn status_of(ok: bool) -> (r: isize)
    ensures
        r == if ok {
            0isize
        } else {
            -1isize
        },
{
    if ok {
        0
    } else {
        -1
    }
}

/// The arguments of `sys_mmap` are acceptable: `start` is page aligned,
/// `prot` names some of read, write and execute and nothing else, and the
/// range lies below `max_va`.
pub open spec fn mmap_args_ok(start: usize, len: usize, prot: usize, max_va: usize) -> bool {
    &&& start % PAGE_SIZE == 0
    &&& prot & !7usize == 0
    &&& prot & 7usize != 0
    &&& start < max_va
    &&& start + len <= max_va
}

/// Permission bits of the new area: `prot`'s read, write and execute bits
/// moved to their place, and the user bit.
pub open spec fn mmap_perm(prot: usize) -> u8 {
    ((prot << 1usize) as u8) | PTE_U
}

/// Number of pages from `lo` up to `hi`.
pub open spec fn page_count(lo: int, hi: int) -> int {
    if hi > lo {
        hi - lo
    } else {
        0
    }
}

/// The pages whose entries `sys_mmap` needs, `(first, past the last)`, or
/// `None` when the arguments are refused anyway.
pub fn mmap_pages(start: usize, len: usize, prot: usize, max_va: usize) -> (r: Option<(usize, usize)>)
    ensures
        r == if mmap_args_ok(start, len, prot, max_va) {
            Some((spec_vpn_floor(start) as usize, spec_vpn_ceil((start + len) as usize) as usize))
        } else {
            None
        },
{
    if start % PAGE_SIZE != 0 || prot & !7usize != 0 || prot & 7usize == 0 || start >= max_va
        || start.checked_add(len).is_none() || start + len > max_va {
        return None;
    }
    proof {
        lemma_va_bounds(start);
        lemma_va_bounds((start + len) as usize);
    }
    Some((vpn_floor(start), vpn_ceil(start + len)))
}

/// Decides a map of fresh pages over `[start, start + len)` with the
/// permissions `prot`: the area to map, as the addresses of its first page,
/// of the page past it and its permission bits, or `None` (the call answers
/// -1) on bad arguments or when a page of the range is mapped already.
/// `ptes[k]` is the entry of page `lo + k` of the range `mmap_pages` gives.
pub fn sys_mmap(start: usize, len: usize, prot: usize, max_va: usize, ptes: &[Option<u8>]) -> (r: Option<(usize, usize, u8)>)
    requires
        mmap_args_ok(start, len, prot, max_va) ==> ptes@.len() == page_count(
            spec_vpn_floor(start),
            spec_vpn_ceil((start + len) as usize),
        ),
    ensures
        r == if !mmap_args_ok(start, len, prot, max_va) {
            None
        } else if exists|k: int| 0 <= k < ptes@.len() && pte_present(#[trigger] ptes@[k]) {
            None
        } else {
            Some(
                (
                    (spec_vpn_floor(start) as usize) << 12usize,
                    (spec_vpn_ceil((start + len) as usize) as usize) << 12usize,
                    mmap_perm(prot),
                ),
            )
        },
{
    let pages = mmap_pages(start, len, prot, max_va);
    let (start_vpn, end_vpn) = match pages {
        Some(p) => p,
        None => {
            return None;
        },
    };
    let mut k: usize = 0;
    while k < ptes.len()
        invariant
            k <= ptes@.len(),
            forall|k2: int| 0 <= k2 < k ==> !pte_present(#[trigger] ptes@[k2]),
        decreases ptes@.len() - k,
    {
        let present = match ptes[k] {
            Some(f) => f & PTE_V != 0,
            None => false,
        };
        if present {
            assert(pte_present(ptes@[k as int]));
            return None;
        }
        k = k + 1;
    }
    let perm: u8 = ((prot << 1usize) as u8) | PTE_U;
    Some((start_vpn << 12usize, end_vpn << 12usize, perm))
}

/// Length that `sys_munmap` unmaps: `len`, cut back so that the range ends
/// at `max_va`.
pub open spec fn munmap_len(start: usize, len: usize, max_va: usize) -> usize {
    if start > max_va - len {
        (max_va - start) as usize
    } else {
        len
    }
}

/// Decides an unmap of `[start, start + len)`: the range to unmap, the
/// length cut back so that it ends at `max_va`, or `None` (the call answers
/// -1) when `start` is not a page-aligned address below `max_va`. The call
/// answers `status_of` whether the unmap succeeded.
pub fn sys_munmap(start: usize, len: usize, max_va: usize) -> (r: Option<(usize, usize)>)
    requires
        start < max_va && start % PAGE_SIZE == 0 ==> len <= max_va,
    ensures
        r == if start >= max_va || start % PAGE_SIZE != 0 {
            None
        } else {
            Some((start, munmap_len(start, len, max_va)))
        },
{
    if start >= max_va || start % PAGE_SIZE != 0 {
        return None;
    }
    let mut mlen = len;
    if start > max_va - len {
        mlen = max_va - start;
    }
    Some((start, mlen))
}

/// Moves the program break by `size` bytes; returns the old break, or -1
/// when `change_brk(size)` refuses.
pub fn sys_sbrk<C: FnOnce(i32) -> Option<usize>>(size: i32, change_brk: C) -> (r: isize)
    requires
        call_requires(change_brk, (size,)),
    ensures
        exists|old_brk: Option<usize>|
            call_ensures(change_brk, (size,), old_brk) && r == match old_brk {
                Some(b) => b as isize,
                None => -1isize,
            },
{
    match change_brk(size) {
        Some(old_brk) => old_brk as isize,
        None => -1,
    }
}

/// `sys_munmap` never reaches past `max_va` and never unmaps more than
/// asked.
pub proof fn lemma_munmap_stays_below(start: usize, len: usize, max_va: usize)
    requires
        start < max_va,
        len <= max_va,
    ensures
        start + munmap_len(start, len, max_va) <= max_va,
        munmap_len(start, len, max_va) <= len,
{
}

/// Below the top of the Sv39 address space, the pages `sys_mmap` maps start
/// at `start` and cover `[start, start + len)`, reaching less than a page
/// past it.
pub proof fn lemma_mmap_pages_cover(start: usize, len: usize, prot: usize, max_va: usize)
    requires
        mmap_args_ok(start, len, prot, max_va),
        start + len <= VA_MASK,
    ensures
        spec_vpn_floor(start) * PAGE_SIZE == start,
        start + len <= spec_vpn_ceil((start + len) as usize) * PAGE_SIZE < start + len + PAGE_SIZE,
        len > 0 ==> spec_vpn_floor(start) < spec_vpn_ceil((start + len) as usize),
{
    let a = start as u64;
    let b = (start + len) as u64;
    assert(a <= 0x7f_ffff_ffffu64 ==> a & 0x7f_ffff_ffffu64 == a) by (bit_vector);
    assert(b <= 0x7f_ffff_ffffu64 ==> b & 0x7f_ffff_ffffu64 == b) by (bit_vector);
    assert(spec_va(start) == start);
    assert(spec_va((start + len) as usize) == start + len);
    let e = start + len;
    assert(start / 4096 * 4096 == start) by (nonlinear_arith)
        requires
            start % 4096 == 0,
    {}
    if e > 0 {
        assert(e <= (e - 1 + 4096) / 4096 * 4096 < e + 4096) by (nonlinear_arith)
            requires
                e > 0,
        {}
        if len > 0 {
            assert(start / 4096 < (e - 1 + 4096) / 4096) by (nonlinear_arith)
                requires
                    e == start + len,
                    len > 0,
                    start % 4096 == 0,
            {}
        }
    }
}

/// A trace read is granted exactly when the page's entry is valid,
/// readable and open to user code, whatever its other bits (W, X, G, A, D);
/// a trace write exactly when it is valid, writable and open to user code,
/// whatever its other bits. A missing entry grants neither.
pub proof fn lemma_trace_grants_by_flags(id: usize, data: usize, f: u8)
    ensures
        trace_step(TRACE_READ, id, data, Some(f)) == if f & 1 != 0 && f & 2 != 0 && f & 16 != 0 {
            TraceStep::ReadByte(id)
        } else {
            TraceStep::Answer(-1isize)
        },
        trace_step(TRACE_WRITE, id, data, Some(f)) == if f & 1 != 0 && f & 4 != 0 && f & 16 != 0 {
            TraceStep::WriteByte(id, data as u8)
        } else {
            TraceStep::Answer(-1isize)
        },
        trace_step(TRACE_READ, id, data, None) == TraceStep::Answer(-1isize),
        trace_step(TRACE_WRITE, id, data, None) == TraceStep::Answer(-1isize),
{
}

/// Bits a check does not test do not change its answer: two entries that
/// agree on V, R and U get the same answer to a read, and two that agree on
/// V, W and U the same answer to a write.
pub proof fn lemma_trace_ignores_untested_bits(id: usize, data: usize, f: u8, g: u8)
    ensures
        f & 0x13u8 == g & 0x13u8 ==> trace_step(TRACE_READ, id, data, Some(f)) == trace_step(
            TRACE_READ,
            id,
            data,
            Some(g),
        ),
        f & 0x15u8 == g & 0x15u8 ==> trace_step(TRACE_WRITE, id, data, Some(f)) == trace_step(
            TRACE_WRITE,
            id,
            data,
            Some(g),
        ),
{
    assert(f & 0x13u8 == g & 0x13u8 ==> ((f & 1u8 != 0) == (g & 1u8 != 0) && (f & 2u8 != 0) == (g & 2u8
        != 0) && (f & 16u8 != 0) == (g & 16u8 != 0))) by (bit_vector);
    assert(f & 0x15u8 == g & 0x15u8 ==> ((f & 1u8 != 0) == (g & 1u8 != 0) && (f & 4u8 != 0) == (g & 4u8
        != 0) && (f & 16u8 != 0) == (g & 16u8 != 0))) by (bit_vector);
}

} // verus!
