//! A deterministic single-CPU process scheduler: a round-robin policy and a
//! priority-aware round-robin policy, written as transition functions over an
//! abstract scheduler state.

pub mod laws;
pub mod growth;
pub mod lemmas;
pub mod model;
pub mod preservation;
pub mod process;
pub mod queues;
pub mod round_robin;
pub mod round_robin_priority;
pub mod scheduling;

pub use process::{Pid, ProcessInfo, ProcessState};
pub use round_robin::RoundRobin;
pub use round_robin_priority::RoundRobinPriority;
pub use scheduling::{SchedulingDecision, StopReason, Syscall, SyscallResult};
