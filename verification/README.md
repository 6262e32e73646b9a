# os_core

The decision-making core of a small teaching kernel's system calls, verified
with Verus.

- `src/syscall/deadlock.rs`: the banker's-algorithm safety check. Its
  contract says that the check answers `true` exactly when some order lets
  every pending task finish, and marks exactly the tasks that some safe order
  lets finish.
- `src/syscall/sync.rs`: a process's mutex, semaphore and condition-variable
  tables, the snapshots the deadlock check runs on, and the system calls that
  create, lock, release and wait. Calls that may block are split in two
  halves around the blocking operation, which the caller performs.
- `src/syscall/process.rs`: argument checks and computations of the time,
  tracing, memory-mapping and program-break calls.
- `src/task/manager.rs`: the stride scheduler's ready queue.
- `app/lib.rs`: the system calls as the kernel dispatches them, over a
  `Kernel` trait that stands for the kernel's other services, and the global
  ready queue.
