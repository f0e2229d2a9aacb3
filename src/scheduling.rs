use vstd::prelude::*;

use crate::process::Pid;

verus! {

/// A request a running process makes of the scheduler.
#[derive(Clone, Copy, Debug, PartialEq, Eq, Structural)]
pub enum Syscall {
    /// Create a process with the given priority.
    Fork(i8),
    /// Sleep for the given number of time units (at least one).
    Sleep(usize),
    /// Block until the given event is signalled.
    Wait(usize),
    /// Wake every process blocked on the given event.
    Signal(usize),
    /// Terminate the calling process.
    Exit,
}

/// Why the running process gave the CPU back.
#[derive(Clone, Copy, Debug, PartialEq, Eq, Structural)]
pub enum StopReason {
    /// The process issued `syscall` with `remaining` units of its quantum left.
    Syscall { syscall: Syscall, remaining: usize },
    /// The quantum ran out.
    Expired,
}

/// What the host should do next.
#[derive(Clone, Copy, Debug, PartialEq, Eq, Structural)]
pub enum SchedulingDecision {
    /// Run `pid` for at most `timeslice` units.
    Run { pid: Pid, timeslice: usize },
    /// Idle for exactly this many units, then ask again.
    Sleep(usize),
    /// Every remaining process waits for an event nobody can signal.
    Deadlock,
    /// The init process exited while other processes remained.
    Panic,
    /// No process is left.
    Done,
}

/// The answer to a `stop`.
#[derive(Clone, Copy, Debug, PartialEq, Eq, Structural)]
pub enum SyscallResult {
    /// The PID of a freshly forked process.
    Pid(Pid),
    Success,
    /// `stop` was called while no process was running.
    NoRunningProcess,
}

} // verus!
