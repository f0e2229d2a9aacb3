use scheduler::{
    Pid, ProcessState, RoundRobin, RoundRobinPriority, SchedulingDecision, StopReason, Syscall,
    SyscallResult,
};

fn syscall(syscall: Syscall, remaining: usize) -> StopReason {
    StopReason::Syscall { syscall, remaining }
}

fn run(pid: usize, timeslice: usize) -> SchedulingDecision {
    SchedulingDecision::Run { pid: Pid::new(pid), timeslice }
}

fn pids(s: &RoundRobin) -> Vec<usize> {
    s.list().iter().map(|p| p.pid().as_usize()).collect()
}

#[test]
fn stop_without_running_process_changes_nothing() {
    let mut s = RoundRobin::new(5, 1);
    assert_eq!(s.stop(syscall(Syscall::Fork(0), 0)), SyscallResult::NoRunningProcess);
    assert_eq!(s.stop(StopReason::Expired), SyscallResult::NoRunningProcess);
    assert!(s.list().is_empty());
    s.spawn(0);
    assert_eq!(s.stop(syscall(Syscall::Exit, 0)), SyscallResult::NoRunningProcess);
    assert_eq!(pids(&s), vec![1]);
    assert_eq!(s.list()[0].timings(), (0, 0, 0));
}

#[test]
fn empty_scheduler_is_done() {
    let mut s = RoundRobin::new(3, 0);
    assert_eq!(s.next(), SchedulingDecision::Done);
    assert_eq!(s.next(), SchedulingDecision::Done);
}

#[test]
fn generate_pid_counts_up_from_one() {
    let mut s = RoundRobin::new(3, 0);
    assert_eq!(s.generate_pid(), Pid::new(1));
    assert_eq!(s.generate_pid(), Pid::new(2));
    assert_eq!(s.spawn(0), Pid::new(3));
}

#[test]
fn increase_timings_charges_and_wakes() {
    let mut s = RoundRobin::new(10, 1);
    s.spawn(0);
    s.spawn(0);
    assert_eq!(s.next(), run(1, 10));
    // PID 1 sleeps 4 with no user time: PID 2 is charged 1.
    s.stop(syscall(Syscall::Sleep(4), 10));
    s.increase_timings(3);
    let list = s.list();
    assert_eq!(list.len(), 2);
    assert_eq!(list[0].pid(), Pid::new(2));
    assert_eq!(list[0].timings(), (4, 0, 0));
    assert_eq!(list[1].state(), ProcessState::Waiting { event: None });
    assert_eq!(list[1].timings(), (4, 1, 0));
    // The last unit of sleep passes: PID 1 is ready again, after PID 2.
    s.increase_timings(1);
    let list = s.list();
    assert_eq!(list[1].pid(), Pid::new(1));
    assert_eq!(list[1].state(), ProcessState::Ready);
    assert_eq!(list[1].timings(), (5, 1, 0));
}

#[test]
fn sleep_round_trip_charges_syscall_and_sleep() {
    let mut s = RoundRobin::new(5, 1);
    s.spawn(0);
    assert_eq!(s.next(), run(1, 5));
    assert_eq!(s.stop(syscall(Syscall::Sleep(3), 5)), SyscallResult::Success);
    assert_eq!(s.next(), SchedulingDecision::Sleep(3));
    assert_eq!(s.list()[0].state(), ProcessState::Ready);
    assert_eq!(s.next(), run(1, 5));
    // 1 unit for the syscall, 3 slept.
    assert_eq!(s.list()[0].timings(), (4, 1, 0));
    assert_eq!(s.list()[0].state(), ProcessState::Running);
}

#[test]
fn equal_sleepers_wake_in_insertion_order() {
    let mut s = RoundRobin::new(5, 1);
    s.spawn(0);
    s.spawn(0);
    assert_eq!(s.next(), run(1, 5));
    s.stop(syscall(Syscall::Sleep(3), 5));
    assert_eq!(s.next(), run(2, 5));
    // One unit passes: PID 1 has 2 left, as much as PID 2 asks for.
    s.stop(syscall(Syscall::Sleep(2), 5));
    assert_eq!(s.next(), SchedulingDecision::Sleep(2));
    assert_eq!(pids(&s), vec![1, 2]);
    assert_eq!(s.list()[1].state(), ProcessState::Waiting { event: None });
    // The idle time wakes PID 2 as well, behind PID 1.
    assert_eq!(s.next(), run(1, 5));
    assert_eq!(pids(&s), vec![2, 1]);
    assert_eq!(s.list()[0].state(), ProcessState::Ready);
}

#[test]
fn shorter_sleep_wakes_first() {
    let mut s = RoundRobin::new(5, 1);
    s.spawn(0);
    s.spawn(0);
    s.next();
    s.stop(syscall(Syscall::Sleep(9), 5));
    s.next();
    s.stop(syscall(Syscall::Sleep(2), 5));
    assert_eq!(s.next(), SchedulingDecision::Sleep(2));
    assert_eq!(s.next(), run(2, 5));
}

#[test]
fn signal_wakes_every_waiter_in_order() {
    let mut s = RoundRobin::new(5, 1);
    s.spawn(0);
    s.spawn(0);
    s.spawn(0);
    s.spawn(0);
    assert_eq!(s.next(), run(1, 5));
    s.stop(syscall(Syscall::Wait(4), 5));
    assert_eq!(s.next(), run(2, 5));
    s.stop(syscall(Syscall::Wait(8), 5));
    assert_eq!(s.next(), run(3, 5));
    s.stop(syscall(Syscall::Wait(4), 5));
    assert_eq!(s.next(), run(4, 5));
    assert_eq!(s.stop(syscall(Syscall::Signal(4), 3)), SyscallResult::Success);
    // Ready: 1, 3; waiting: 2; running: 4, which keeps its quantum.
    assert_eq!(pids(&s), vec![1, 3, 2, 4]);
    let list = s.list();
    assert_eq!(list[0].state(), ProcessState::Ready);
    assert_eq!(list[1].state(), ProcessState::Ready);
    assert_eq!(list[2].state(), ProcessState::Waiting { event: Some(8) });
    // Three earlier syscalls charged 1 each; this one 2 used plus 1.
    assert_eq!(list[3].timings(), (6, 1, 2));
    assert_eq!(s.next(), run(4, 3));
}

#[test]
fn signal_without_waiters_moves_nothing() {
    let mut s = RoundRobin::new(5, 1);
    s.spawn(0);
    s.spawn(0);
    s.spawn(0);
    s.next();
    s.stop(syscall(Syscall::Wait(2), 5));
    assert_eq!(s.next(), run(2, 5));
    let before = pids(&s);
    assert_eq!(s.stop(syscall(Syscall::Signal(6), 4)), SyscallResult::Success);
    assert_eq!(pids(&s), before);
    // Only time passed: 1 used plus 1 for the syscall.
    let list = s.list();
    assert_eq!(list[0].timings(), (3, 0, 0));
    assert_eq!(list[1].state(), ProcessState::Waiting { event: Some(2) });
    assert_eq!(list[1].timings(), (3, 1, 0));
}

#[test]
fn below_minimum_remaining_preempts() {
    let mut s = RoundRobin::new(10, 3);
    s.spawn(0);
    s.spawn(0);
    assert_eq!(s.next(), run(1, 10));
    assert_eq!(s.stop(syscall(Syscall::Fork(0), 3)), SyscallResult::Pid(Pid::new(3)));
    // Exactly the minimum left: PID 1 keeps the CPU.
    assert_eq!(s.next(), run(1, 3));
    assert_eq!(s.stop(syscall(Syscall::Signal(9), 2)), SyscallResult::Success);
    // One unit under the minimum: PID 1 goes to the back of the queue.
    assert_eq!(s.next(), run(2, 10));
    assert_eq!(pids(&s), vec![3, 1, 2]);
}

#[test]
fn lone_process_below_minimum_gets_a_fresh_quantum() {
    let mut s = RoundRobin::new(6, 2);
    s.spawn(0);
    assert_eq!(s.next(), run(1, 6));
    s.stop(syscall(Syscall::Signal(1), 1));
    assert_eq!(s.next(), run(1, 6));
}

#[test]
fn lone_init_exit_is_done() {
    let mut s = RoundRobin::new(4, 1);
    s.spawn(2);
    assert_eq!(s.next(), run(1, 4));
    assert_eq!(s.stop(syscall(Syscall::Exit, 0)), SyscallResult::Success);
    assert_eq!(s.next(), SchedulingDecision::Done);
    assert!(s.list().is_empty());
}

#[test]
fn init_exit_with_event_waiters_panics_before_deadlock() {
    let mut s = RoundRobin::new(4, 1);
    s.spawn(0);
    s.next();
    s.stop(syscall(Syscall::Fork(0), 4));
    s.stop(StopReason::Expired);
    assert_eq!(s.next(), run(2, 4));
    s.stop(syscall(Syscall::Wait(1), 4));
    assert_eq!(s.next(), run(1, 4));
    s.stop(syscall(Syscall::Exit, 2));
    assert_eq!(s.next(), SchedulingDecision::Panic);
    assert_eq!(s.next(), SchedulingDecision::Deadlock);
}

#[test]
fn exit_of_other_process_is_not_a_panic() {
    let mut s = RoundRobin::new(4, 1);
    s.spawn(0);
    s.next();
    s.stop(syscall(Syscall::Fork(0), 4));
    s.stop(StopReason::Expired);
    assert_eq!(s.next(), run(2, 4));
    s.stop(syscall(Syscall::Exit, 1));
    assert_eq!(s.next(), run(1, 4));
}

#[test]
fn timings_stay_consistent() {
    let mut s = RoundRobin::new(7, 2);
    s.spawn(0);
    s.next();
    s.stop(syscall(Syscall::Fork(1), 5));
    s.next();
    s.stop(syscall(Syscall::Sleep(2), 1));
    s.next();
    s.stop(StopReason::Expired);
    for p in s.list() {
        let (total, syscalls, cpu) = p.timings();
        assert!(total >= cpu + syscalls);
        assert!(p.extra().is_empty());
    }
}

#[test]
fn pids_are_unique_and_at_most_one_runs() {
    let mut s = RoundRobin::new(3, 1);
    s.spawn(0);
    s.next();
    s.stop(syscall(Syscall::Fork(0), 2));
    s.stop(syscall(Syscall::Fork(0), 1));
    s.stop(syscall(Syscall::Sleep(5), 0));
    s.next();
    let mut seen = pids(&s);
    assert_eq!(seen.len(), 3);
    seen.sort();
    seen.dedup();
    assert_eq!(seen, vec![1, 2, 3]);
    let running = s.list().iter().filter(|p| p.state() == ProcessState::Running).count();
    assert_eq!(running, 1);
}

#[test]
fn round_robin_keeps_creation_priority() {
    let mut s = RoundRobin::new(4, 1);
    s.spawn(4);
    s.next();
    s.stop(syscall(Syscall::Wait(3), 2));
    assert_eq!(s.list()[0].priority(), 4);
}

#[test]
fn priority_drops_on_block_and_recovers_on_expiry() {
    let mut s = RoundRobinPriority::new(4, 1);
    s.spawn(2);
    assert_eq!(s.next(), run(1, 4));
    s.stop(syscall(Syscall::Sleep(1), 4));
    assert_eq!(s.list()[0].priority(), 1);
    assert_eq!(s.next(), SchedulingDecision::Sleep(1));
    assert_eq!(s.next(), run(1, 4));
    s.stop(syscall(Syscall::Wait(5), 4));
    assert_eq!(s.list()[0].priority(), 0);
    // Never below zero.
    let mut t = RoundRobinPriority::new(4, 1);
    t.spawn(0);
    t.next();
    t.stop(syscall(Syscall::Sleep(1), 4));
    assert_eq!(t.list()[0].priority(), 0);
    t.next();
    t.next();
    t.stop(StopReason::Expired);
    assert_eq!(t.list()[0].priority(), 0);
}

#[test]
fn aging_restores_priority_up_to_base() {
    let mut s = RoundRobinPriority::new(4, 1);
    s.spawn(2);
    s.next();
    s.stop(syscall(Syscall::Sleep(1), 4));
    s.next();
    s.next();
    s.stop(StopReason::Expired);
    assert_eq!(s.list()[0].priority(), 2);
    s.next();
    s.stop(StopReason::Expired);
    assert_eq!(s.list()[0].priority(), 2);
}

#[test]
fn priority_ties_are_served_in_arrival_order() {
    let mut s = RoundRobinPriority::new(4, 1);
    s.spawn(1);
    s.spawn(3);
    s.spawn(3);
    s.spawn(2);
    assert_eq!(s.next(), run(2, 4));
    s.stop(syscall(Syscall::Exit, 4));
    assert_eq!(s.next(), run(3, 4));
    s.stop(syscall(Syscall::Exit, 4));
    assert_eq!(s.next(), run(4, 4));
    s.stop(syscall(Syscall::Exit, 4));
    assert_eq!(s.next(), run(1, 4));
}

#[test]
fn only_timed_sleepers_avoid_deadlock() {
    let mut s = RoundRobin::new(4, 1);
    s.spawn(0);
    s.next();
    s.stop(syscall(Syscall::Fork(0), 4));
    s.stop(syscall(Syscall::Wait(3), 4));
    assert_eq!(s.next(), run(2, 4));
    s.stop(syscall(Syscall::Sleep(2), 4));
    assert_eq!(s.next(), SchedulingDecision::Sleep(2));
    assert_eq!(s.next(), run(2, 4));
    s.stop(syscall(Syscall::Wait(9), 4));
    assert_eq!(s.next(), SchedulingDecision::Deadlock);
    assert_eq!(s.next(), SchedulingDecision::Deadlock);
}

#[test]
fn increase_timings_leaves_running_record_alone() {
    let mut s = RoundRobin::new(5, 1);
    s.spawn(0);
    s.spawn(0);
    assert_eq!(s.next(), run(1, 5));
    s.increase_timings(2);
    let list = s.list();
    assert_eq!(list[0].pid(), Pid::new(2));
    assert_eq!(list[0].timings(), (2, 0, 0));
    assert_eq!(list[1].pid(), Pid::new(1));
    assert_eq!(list[1].timings(), (0, 0, 0));
    // The running record is charged when it gives the CPU back.
    s.stop(syscall(Syscall::Signal(3), 3));
    assert_eq!(s.list()[1].timings(), (3, 1, 2));
}

#[test]
fn timings_never_go_down() {
    fn snapshot(s: &RoundRobin) -> Vec<(usize, (usize, usize, usize))> {
        s.list().iter().map(|p| (p.pid().as_usize(), p.timings())).collect()
    }
    let mut s = RoundRobin::new(4, 2);
    s.spawn(0);
    let mut before = snapshot(&s);
    let steps: Vec<Option<StopReason>> = vec![
        None,
        Some(syscall(Syscall::Fork(0), 3)),
        None,
        Some(syscall(Syscall::Sleep(2), 2)),
        None,
        Some(StopReason::Expired),
        None,
        Some(syscall(Syscall::Wait(1), 1)),
        None,
        None,
    ];
    for step in steps {
        match step {
            None => {
                s.next();
            }
            Some(reason) => {
                s.stop(reason);
            }
        }
        let after = snapshot(&s);
        for (pid, (total, syscalls, cpu)) in &after {
            if let Some((_, (t0, s0, c0))) = before.iter().find(|(p, _)| p == pid) {
                assert!(total >= t0 && syscalls >= s0 && cpu >= c0);
            }
        }
        before = after;
    }
}
