use scheduler::{
    Pid, ProcessState, RoundRobin, RoundRobinPriority, SchedulingDecision, StopReason, Syscall,
    SyscallResult,
};

fn syscall(syscall: Syscall, remaining: usize) -> StopReason {
    StopReason::Syscall { syscall, remaining }
}

fn run(pid: usize, timeslice: usize) -> SchedulingDecision {
    SchedulingDecision::Run { pid: Pid::new(pid), timeslice }
}

#[test]
fn single_process_hello_exit() {
    let mut s = RoundRobin::new(10, 2);
    assert_eq!(s.spawn(0), Pid::new(1));
    assert_eq!(s.next(), run(1, 10));
    assert_eq!(s.stop(syscall(Syscall::Exit, 7)), SyscallResult::Success);
    assert_eq!(s.next(), SchedulingDecision::Done);
    assert!(s.list().is_empty());
}

#[test]
fn fork_and_alternate() {
    let mut s = RoundRobin::new(4, 1);
    s.spawn(0);
    assert_eq!(s.next(), run(1, 4));
    assert_eq!(s.stop(syscall(Syscall::Fork(0), 2)), SyscallResult::Pid(Pid::new(2)));
    // PID 1 keeps the CPU with the rest of its quantum.
    assert_eq!(s.next(), run(1, 2));
    assert_eq!(s.stop(StopReason::Expired), SyscallResult::Success);
    assert_eq!(s.next(), run(2, 4));
    assert_eq!(s.stop(StopReason::Expired), SyscallResult::Success);
    assert_eq!(s.next(), run(1, 4));
}

#[test]
fn fork_and_alternate_timings() {
    let mut s = RoundRobin::new(4, 1);
    s.spawn(0);
    s.next();
    s.stop(syscall(Syscall::Fork(0), 2));
    s.next();
    s.stop(StopReason::Expired);
    // Fork used 2 units plus 1 for the syscall; the expiry charged 2 more.
    let list = s.list();
    assert_eq!(list.len(), 2);
    assert_eq!(list[0].pid(), Pid::new(2));
    assert_eq!(list[0].timings(), (2, 0, 0));
    assert_eq!(list[1].pid(), Pid::new(1));
    assert_eq!(list[1].timings(), (5, 1, 4));
    assert_eq!(list[1].state(), ProcessState::Ready);
}

#[test]
fn sleep_wakeup() {
    let mut s = RoundRobin::new(5, 1);
    s.spawn(0);
    assert_eq!(s.next(), run(1, 5));
    assert_eq!(s.stop(syscall(Syscall::Fork(0), 4)), SyscallResult::Pid(Pid::new(2)));
    assert_eq!(s.next(), run(1, 4));
    // PID 1 executes its 4 units.
    assert_eq!(s.stop(StopReason::Expired), SyscallResult::Success);
    assert_eq!(s.next(), run(2, 5));
    // PID 2 sleeps 3 after using 1 unit.
    assert_eq!(s.stop(syscall(Syscall::Sleep(3), 4)), SyscallResult::Success);
    assert_eq!(s.next(), run(1, 5));
    // PID 1 exits after 1 unit: 2 units elapse, PID 2 has 1 unit of sleep left.
    assert_eq!(s.stop(syscall(Syscall::Exit, 4)), SyscallResult::Success);
    // The init process died with PID 2 still alive: reported once.
    assert_eq!(s.next(), SchedulingDecision::Panic);
    assert_eq!(s.next(), SchedulingDecision::Sleep(1));
    assert_eq!(s.next(), run(2, 5));
}

#[test]
fn deadlock_on_event() {
    let mut s = RoundRobin::new(5, 1);
    s.spawn(0);
    assert_eq!(s.next(), run(1, 5));
    assert_eq!(s.stop(syscall(Syscall::Fork(0), 4)), SyscallResult::Pid(Pid::new(2)));
    assert_eq!(s.next(), run(1, 4));
    assert_eq!(s.stop(syscall(Syscall::Wait(7), 3)), SyscallResult::Success);
    assert_eq!(s.next(), run(2, 5));
    assert_eq!(s.stop(syscall(Syscall::Wait(7), 4)), SyscallResult::Success);
    assert_eq!(s.next(), SchedulingDecision::Deadlock);
}

#[test]
fn init_panic() {
    let mut s = RoundRobin::new(5, 1);
    s.spawn(0);
    assert_eq!(s.next(), run(1, 5));
    assert_eq!(s.stop(syscall(Syscall::Fork(0), 4)), SyscallResult::Pid(Pid::new(2)));
    assert_eq!(s.stop(syscall(Syscall::Exit, 3)), SyscallResult::Success);
    assert_eq!(s.next(), SchedulingDecision::Panic);
    // The condition is reported once; PID 2 is then scheduled.
    assert_eq!(s.next(), run(2, 5));
}

#[test]
fn priority_preemption() {
    let mut s = RoundRobinPriority::new(4, 1);
    assert_eq!(s.spawn(3), Pid::new(1));
    assert_eq!(s.next(), run(1, 4));
    assert_eq!(s.stop(syscall(Syscall::Fork(5), 3)), SyscallResult::Pid(Pid::new(2)));
    // No preemption at the decision: PID 1 keeps its quantum.
    assert_eq!(s.next(), run(1, 3));
    assert_eq!(s.stop(StopReason::Expired), SyscallResult::Success);
    let list = s.list();
    assert_eq!(list[0].pid(), Pid::new(2));
    assert_eq!(list[0].priority(), 5);
    assert_eq!(list[1].pid(), Pid::new(1));
    assert_eq!(list[1].priority(), 3);
    assert_eq!(list[1].base_priority(), 3);
    assert_eq!(s.next(), run(2, 4));
}
