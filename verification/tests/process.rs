use std::cell::RefCell;

use os::process::{
    mmap_pages, status_of, sys_mmap, sys_munmap, sys_sbrk, sys_trace, sys_yield, trace_count_result,
    trace_read_result, user_byte_readable, user_byte_writable, vpn_ceil, vpn_floor, TimeVal,
    TraceStep, PTE_R, PTE_U, PTE_V, PTE_W, PTE_X, TRACE_READ, TRACE_SYSCALL, TRACE_WRITE,
};
use os::PAGE_SIZE;

const MAX_VA: usize = 0x40_0000_0000;

#[test]
fn time_from_micros() {
    let t = TimeVal::from_micros(1_234_567);
    assert_eq!((t.sec, t.usec), (1, 234_567));
    let t = TimeVal::from_micros(999_999);
    assert_eq!((t.sec, t.usec), (0, 999_999));
}

#[test]
fn page_numbers() {
    assert_eq!(PAGE_SIZE, 4096);
    assert_eq!(vpn_floor(0x1fff), 1);
    assert_eq!(vpn_ceil(0x1fff), 2);
    assert_eq!(vpn_ceil(0x2000), 2);
    assert_eq!(vpn_ceil(0), 0);
    // Only the low 39 bits of an address count.
    assert_eq!(vpn_floor(0x80_0000_1000), 1);
}

#[test]
fn pte_permissions() {
    let rwu = Some(PTE_V | PTE_R | PTE_W | PTE_U);
    assert!(user_byte_readable(rwu));
    assert!(user_byte_writable(rwu));
    assert!(!user_byte_readable(Some(PTE_V | PTE_R)));
    assert!(!user_byte_readable(Some(PTE_R | PTE_U)));
    assert!(!user_byte_writable(Some(PTE_V | PTE_R | PTE_U | PTE_X)));
    assert!(!user_byte_readable(None));
}

#[test]
fn yield_returns_zero() {
    let ran = RefCell::new(false);
    assert_eq!(sys_yield(|| *ran.borrow_mut() = true), 0);
    assert!(*ran.borrow());
}

#[test]
fn trace_read() {
    let ru = Some(PTE_V | PTE_R | PTE_U);
    assert!(sys_trace(TRACE_READ, 5 * 4096 + 7, 0, ru) == TraceStep::ReadByte(5 * 4096 + 7));
    assert!(sys_trace(TRACE_READ, 5 * 4096, 0, None) == TraceStep::Answer(-1));
    assert!(sys_trace(TRACE_READ, 5 * 4096, 0, Some(PTE_V | PTE_R)) == TraceStep::Answer(-1));
    assert_eq!(trace_read_result(Some(0xab)), 0xab);
    assert_eq!(trace_read_result(None), -1);
}

#[test]
fn trace_write() {
    let rwu = Some(PTE_V | PTE_R | PTE_W | PTE_U);
    assert!(sys_trace(TRACE_WRITE, 0x1234, 0x1ff, rwu) == TraceStep::WriteByte(0x1234, 0xff));
    let ru = Some(PTE_V | PTE_R | PTE_U);
    assert!(sys_trace(TRACE_WRITE, 0x1234, 1, ru) == TraceStep::Answer(-1));
    assert_eq!(status_of(true), 0);
    assert_eq!(status_of(false), -1);
}

#[test]
fn trace_syscall_and_unknown() {
    assert!(sys_trace(TRACE_SYSCALL, 64, 0, None) == TraceStep::CountSyscall(64));
    assert_eq!(trace_count_result(128), 128);
    assert!(sys_trace(3, 64, 0, Some(PTE_V | PTE_R | PTE_W | PTE_U)) == TraceStep::Answer(-1));
}

#[test]
fn mmap_rejects_bad_arguments() {
    let none: Vec<Option<u8>> = Vec::new();
    assert!(mmap_pages(0x1001, 4096, 3, MAX_VA).is_none());
    assert!(sys_mmap(0x1001, 4096, 3, MAX_VA, &none).is_none());
    assert!(sys_mmap(0x1000, 4096, 8, MAX_VA, &none).is_none());
    assert!(sys_mmap(0x1000, 4096, 0, MAX_VA, &none).is_none());
    assert!(sys_mmap(MAX_VA, 4096, 1, MAX_VA, &none).is_none());
    assert!(sys_mmap(0x1000, usize::MAX, 1, MAX_VA, &none).is_none());
    assert!(sys_mmap(MAX_VA - 4096, 8192, 1, MAX_VA, &none).is_none());
}

#[test]
fn mmap_rejects_mapped_page() {
    assert_eq!(mmap_pages(0x1000, 0x3000, 1, MAX_VA), Some((1, 4)));
    let ptes = vec![None, None, Some(PTE_V | PTE_R | PTE_U)];
    assert!(sys_mmap(0x1000, 0x3000, 1, MAX_VA, &ptes).is_none());
}

#[test]
fn mmap_maps_whole_pages() {
    assert_eq!(mmap_pages(0x1000, 0x1001, 3, MAX_VA), Some((1, 3)));
    // An invalid entry does not count as mapped.
    let ptes = vec![Some(PTE_R), None];
    assert_eq!(sys_mmap(0x1000, 0x1001, 3, MAX_VA, &ptes), Some((0x1000, 0x3000, PTE_R | PTE_W | PTE_U)));
}

#[test]
fn mmap_zero_length() {
    assert_eq!(mmap_pages(0x1000, 0, 4, MAX_VA), Some((1, 1)));
    let none: Vec<Option<u8>> = Vec::new();
    assert_eq!(sys_mmap(0x1000, 0, 4, MAX_VA, &none), Some((0x1000, 0x1000, PTE_X | PTE_U)));
}

#[test]
fn munmap_cases() {
    assert_eq!(sys_munmap(0x1000, 0x2000, MAX_VA), Some((0x1000, 0x2000)));
    assert_eq!(sys_munmap(MAX_VA - 0x1000, 0x3000, MAX_VA), Some((MAX_VA - 0x1000, 0x1000)));
    assert_eq!(sys_munmap(0x1001, 0x1000, MAX_VA), None);
    assert_eq!(sys_munmap(MAX_VA, 0x1000, MAX_VA), None);
}

#[test]
fn sbrk_cases() {
    assert_eq!(sys_sbrk(4096, |_| Some(0x8000)), 0x8000);
    assert_eq!(sys_sbrk(-4096, |_| None), -1);
    let seen = RefCell::new(0);
    sys_sbrk(-12, |s| {
        *seen.borrow_mut() = s;
        Some(0)
    });
    assert_eq!(*seen.borrow(), -12);
}
