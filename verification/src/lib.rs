//! Verified core of a small teaching kernel: the deadlock-avoidance check
//! behind the mutex and semaphore system calls, the bookkeeping of those
//! calls, the argument checks of the memory and tracing calls, and the
//! stride scheduler's ready queue.
pub mod syscall;
pub mod task;
