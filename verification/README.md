# os

Kernel logic of a small RISC-V teaching operating system, verified with Verus.

- `src/deadlock.rs`: the banker's safety check made before a thread waits on a
  semaphore; its result is proved equal to "the state with the request added
  has no safe sequence".
- `src/mutex.rs`: spinning and blocking mutexes as decision steps (acquire,
  retry, block, deadlock, hand over).
- `src/manager.rs`: the stride scheduler's ready queue.
- `src/inode.rs`, `src/name_table.rs`: `open` flags, the open file's cursor
  and the in-memory table of hard links of the root directory.
- `src/process.rs`: the checks of the process system calls; the kernel's
  services come in as closures.
- `app/`: the glue a kernel puts around the library (global tables, loops that
  block or read files, system calls over the current task).
