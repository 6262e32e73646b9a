//! System-call logic: deadlock avoidance, process memory and tracing checks,
//! synchronisation primitives.
pub mod deadlock;
pub mod sync;
pub mod process;
