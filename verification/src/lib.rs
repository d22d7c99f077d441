//! Kernel logic of a small teaching operating system: the banker's deadlock
//! check, blocking and spinning mutexes, the stride scheduler's ready queue,
//! the root directory's link table and the checks of the process system calls.
use vstd::prelude::*;

pub mod deadlock;
pub mod inode;
pub mod manager;
pub mod mutex;
pub mod name_table;
pub mod process;

verus! {

/// Size of a page of the Sv39 address space, in bytes.
pub const PAGE_SIZE: usize = 4096;

} // verus!
