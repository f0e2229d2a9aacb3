use vstd::multiset::Multiset;
use vstd::prelude::*;

use crate::process::{Pid, Proc, ProcessState};
use crate::scheduling::{SchedulingDecision, StopReason, Syscall, SyscallResult};

verus! {

/// Model of a blocked record: the process and, for a timed sleep, the units
/// of sleep it still has to serve.
pub struct Blocked {
    pub proc: Proc,
    pub sleep_left: Option<nat>,
}

impl Blocked {
    pub open spec fn charged(self, amount: nat) -> Blocked {
        Blocked {
            proc: self.proc.charged(amount),
            sleep_left: match self.sleep_left {
                Some(v) => Some(if v >= amount { (v - amount) as nat } else { 0nat }),
                None => None,
            },
        }
    }

    /// Invariant of a record in the wait set: it is waiting, it has a
    /// sleep entry exactly when it sleeps on a timer, and that entry is
    /// still positive.
    pub open spec fn well_formed(self) -> bool {
        &&& self.proc.timings_consistent()
        &&& match self.proc.state {
            ProcessState::Waiting { event } => (event is None <==> self.sleep_left is Some),
            _ => false,
        }
        &&& match self.sleep_left {
            Some(v) => v > 0,
            None => true,
        }
    }
}

/// A timed sleeper whose sleep is over.
pub open spec fn is_due() -> spec_fn(Blocked) -> bool {
    |b: Blocked| b.sleep_left == Some(0nat)
}

pub open spec fn not_due() -> spec_fn(Blocked) -> bool {
    |b: Blocked| b.sleep_left != Some(0nat)
}

/// A record blocked on event `e`.
pub open spec fn waits_on(e: usize) -> spec_fn(Blocked) -> bool {
    |b: Blocked| b.proc.state == (ProcessState::Waiting { event: Some(e) })
}

pub open spec fn not_waits_on(e: usize) -> spec_fn(Blocked) -> bool {
    |b: Blocked| b.proc.state != (ProcessState::Waiting { event: Some(e) })
}

/// A record asleep on a timer.
pub open spec fn timed_sleeper() -> spec_fn(Blocked) -> bool {
    |b: Blocked| b.proc.state == (ProcessState::Waiting { event: None })
}

/// A record with an entry in the sleep ledger.
pub open spec fn has_sleep_entry() -> spec_fn(Blocked) -> bool {
    |b: Blocked| b.sleep_left is Some
}

pub open spec fn charge_procs(q: Seq<Proc>, amount: nat) -> Seq<Proc> {
    q.map_values(|p: Proc| p.charged(amount))
}

pub open spec fn charge_blocked(w: Seq<Blocked>, amount: nat) -> Seq<Blocked> {
    w.map_values(|b: Blocked| b.charged(amount))
}

/// The processes of `w`, made ready to run.
pub open spec fn released(w: Seq<Blocked>) -> Seq<Proc> {
    w.map_values(|b: Blocked| b.proc.with_state(ProcessState::Ready))
}

pub open spec fn blocked_procs(w: Seq<Blocked>) -> Seq<Proc> {
    w.map_values(|b: Blocked| b.proc)
}

pub open spec fn pids_of(q: Seq<Proc>) -> Seq<nat> {
    q.map_values(|p: Proc| p.pid)
}

/// Index of the first record of highest priority.
pub open spec fn top_index(q: Seq<Proc>) -> int
    decreases q.len(),
{
    if q.len() <= 1 {
        0
    } else {
        let i = top_index(q.drop_last());
        if q.last().priority > q[i].priority {
            q.len() - 1
        } else {
            i
        }
    }
}

/// Index of the timed sleeper with the least sleep left, the earliest one
/// among equals.
pub open spec fn first_min_sleeper(w: Seq<Blocked>) -> Option<int>
    decreases w.len(),
{
    if w.len() == 0 {
        None
    } else {
        let prev = first_min_sleeper(w.drop_last());
        match w.last().sleep_left {
            None => prev,
            Some(v) => match prev {
                Some(j) => if w[j].sleep_left.unwrap() <= v {
                    prev
                } else {
                    Some(w.len() - 1)
                },
                None => Some(w.len() - 1),
            },
        }
    }
}

/// Mathematical model of a scheduler.
pub struct SchedState {
    /// Whether the ready queue is served by priority (otherwise first come,
    /// first served).
    pub priority_aware: bool,
    pub timeslice: nat,
    pub minimum_remaining: nat,
    /// Ready records in order of arrival.
    pub ready: Seq<Proc>,
    /// Blocked records in order of arrival.
    pub wait: Seq<Blocked>,
    pub running: Option<Proc>,
    /// Units left in the running process's quantum.
    pub remaining: nat,
    /// The next PID to hand out.
    pub pid_counter: nat,
    /// PID 1 exited and no `Panic` was reported for it yet.
    pub init_exited: bool,
    /// Units the host idled for after the last `Sleep` decision, not yet
    /// charged to the records.
    pub deferred_wake: nat,
}

impl SchedState {
    pub open spec fn initial(timeslice: nat, minimum_remaining: nat, priority_aware: bool) -> SchedState {
        SchedState {
            priority_aware,
            timeslice,
            minimum_remaining,
            ready: Seq::empty(),
            wait: Seq::empty(),
            running: None,
            remaining: timeslice,
            pid_counter: 1,
            init_exited: false,
            deferred_wake: 0,
        }
    }

    pub open spec fn running_seq(self) -> Seq<Proc> {
        match self.running {
            Some(p) => seq![p],
            None => Seq::empty(),
        }
    }

    /// Every live record: the ready queue, the wait set, the running slot.
    pub open spec fn records(self) -> Seq<Proc> {
        self.ready + blocked_procs(self.wait) + self.running_seq()
    }

    /// The sleep ledger: remaining sleep of each timed sleeper, in wait order.
    pub open spec fn sleep_amounts(self) -> Seq<nat> {
        self.wait.filter(has_sleep_entry()).map_values(|b: Blocked| b.sleep_left.unwrap())
    }

    pub open spec fn pid_bag(self) -> Multiset<nat> {
        pids_of(self.records()).to_multiset()
    }

    pub open spec fn inv(self) -> bool {
        &&& self.timeslice > 0
        &&& self.minimum_remaining <= self.timeslice
        &&& self.remaining <= self.timeslice
        &&& self.pid_counter >= 1
        &&& forall|i: int|
            0 <= i < self.ready.len() ==> {
                &&& (#[trigger] self.ready[i]).state == ProcessState::Ready
                &&& self.ready[i].timings_consistent()
            }
        &&& forall|i: int| 0 <= i < self.wait.len() ==> (#[trigger] self.wait[i]).well_formed()
        &&& match self.running {
            Some(p) => {
                &&& p.state == ProcessState::Running
                &&& p.timings_consistent()
                &&& self.deferred_wake == 0
                &&& !self.init_exited
            },
            None => true,
        }
        &&& forall|x: nat|
            #[trigger] self.pid_bag().count(x) <= if 1 <= x < self.pid_counter {
                1nat
            } else {
                0nat
            }
    }

    /// Every record can take `amount` more units of wall-clock in a `usize`.
    pub open spec fn can_charge(self, amount: nat) -> bool {
        &&& forall|i: int| 0 <= i < self.ready.len() ==> #[trigger] self.ready[i].total + amount <= usize::MAX
        &&& forall|i: int| 0 <= i < self.wait.len() ==> #[trigger] self.wait[i].proc.total + amount <= usize::MAX
        &&& match self.running {
            Some(p) => p.total + amount <= usize::MAX,
            None => true,
        }
    }

    /// Let `amount` units of time pass for the records off the CPU: every
    /// ready and blocked record ages by it, sleepers serve it, and the
    /// sleepers that are done move to the ready queue. The running record is
    /// left alone: `stop` books its time together with what it did.
    pub open spec fn charge(self, amount: nat) -> SchedState {
        let w = charge_blocked(self.wait, amount);
        SchedState {
            ready: charge_procs(self.ready, amount) + released(w.filter(is_due())),
            wait: w.filter(not_due()),
            ..self
        }
    }

    /// Index of the ready record the policy runs next.
    pub open spec fn select(self) -> int {
        if self.priority_aware {
            top_index(self.ready)
        } else {
            0
        }
    }

    /// A fresh ready record with the next PID.
    pub open spec fn spawn(self, priority: i8) -> SchedState {
        let child = Proc {
            pid: self.pid_counter,
            state: ProcessState::Ready,
            total: 0,
            syscalls: 0,
            cpu: 0,
            priority: priority as int,
            base_priority: priority as int,
        };
        SchedState { ready: self.ready.push(child), pid_counter: self.pid_counter + 1, ..self }
    }

    /// The decision when nothing holds the CPU.
    pub open spec fn dispatch(self) -> (SchedState, SchedulingDecision) {
        if self.ready.len() > 0 {
            if self.init_exited {
                (SchedState { init_exited: false, ..self }, SchedulingDecision::Panic)
            } else {
                let i = self.select();
                let p = self.ready[i];
                (
                    SchedState {
                        ready: self.ready.remove(i),
                        running: Some(p.with_state(ProcessState::Running)),
                        remaining: self.timeslice,
                        ..self
                    },
                    SchedulingDecision::Run { pid: Pid(p.pid as usize), timeslice: self.timeslice as usize },
                )
            }
        } else if self.wait.len() == 0 {
            (self, SchedulingDecision::Done)
        } else if self.init_exited {
            (SchedState { init_exited: false, ..self }, SchedulingDecision::Panic)
        } else {
            match first_min_sleeper(self.wait) {
                None => (self, SchedulingDecision::Deadlock),
                Some(i) => {
                    let b = self.wait[i];
                    let amount = b.sleep_left.unwrap();
                    (
                        SchedState {
                            ready: self.ready.push(b.proc.with_state(ProcessState::Ready)),
                            wait: self.wait.remove(i),
                            deferred_wake: amount,
                            ..self
                        },
                        SchedulingDecision::Sleep(amount as usize),
                    )
                },
            }
        }
    }

    /// The scheduling decision, and the state after it.
    pub open spec fn next(self) -> (SchedState, SchedulingDecision) {
        let s = SchedState { deferred_wake: 0, ..self.charge(self.deferred_wake) };
        match s.running {
            Some(p) => if s.remaining < s.minimum_remaining {
                SchedState {
                    ready: s.ready.push(p.with_state(ProcessState::Ready)),
                    running: None,
                    ..s
                }.dispatch()
            } else {
                (s, SchedulingDecision::Run { pid: Pid(p.pid as usize), timeslice: s.remaining as usize })
            },
            None => s.dispatch(),
        }
    }

    /// The running record after it blocks, with the priority loss the
    /// priority policy applies.
    pub open spec fn blocked_record(self, p: Proc, state: ProcessState) -> Proc {
        if self.priority_aware {
            p.decayed().with_state(state)
        } else {
            p.with_state(state)
        }
    }

    /// The effect of the running process giving the CPU back.
    pub open spec fn stop(self, reason: StopReason) -> (SchedState, SyscallResult) {
        match self.running {
            None => (self, SyscallResult::NoRunningProcess),
            Some(p) => match reason {
                StopReason::Expired => {
                    let used = self.remaining;
                    let s = self.charge(used);
                    let q = p.charged(used).after_expiry(used);
                    let q = if self.priority_aware { q.aged() } else { q };
                    (
                        SchedState {
                            ready: s.ready.push(q.with_state(ProcessState::Ready)),
                            running: None,
                            remaining: self.timeslice,
                            ..s
                        },
                        SyscallResult::Success,
                    )
                },
                StopReason::Syscall { syscall, remaining } => {
                    let used = (self.remaining - remaining) as nat;
                    let s = self.charge(used + 1);
                    let q = p.charged(used + 1).after_syscall(used);
                    match syscall {
                        Syscall::Fork(priority) => {
                            let t = SchedState { running: Some(q), remaining: remaining as nat, ..s };
                            (t.spawn(priority), SyscallResult::Pid(Pid(s.pid_counter as usize)))
                        },
                        Syscall::Sleep(n) => (
                            SchedState {
                                wait: s.wait.push(
                                    Blocked {
                                        proc: self.blocked_record(q, ProcessState::Waiting { event: None }),
                                        sleep_left: Some(n as nat),
                                    },
                                ),
                                running: None,
                                remaining: self.timeslice,
                                ..s
                            },
                            SyscallResult::Success,
                        ),
                        Syscall::Wait(e) => (
                            SchedState {
                                wait: s.wait.push(
                                    Blocked {
                                        proc: self.blocked_record(q, ProcessState::Waiting { event: Some(e) }),
                                        sleep_left: None,
                                    },
                                ),
                                running: None,
                                remaining: self.timeslice,
                                ..s
                            },
                            SyscallResult::Success,
                        ),
                        Syscall::Signal(e) => (
                            SchedState {
                                ready: s.ready + released(s.wait.filter(waits_on(e))),
                                wait: s.wait.filter(not_waits_on(e)),
                                running: Some(q),
                                remaining: remaining as nat,
                                ..s
                            },
                            SyscallResult::Success,
                        ),
                        Syscall::Exit => (
                            SchedState {
                                running: None,
                                remaining: self.timeslice,
                                init_exited: if p.pid == 1 { true } else { s.init_exited },
                                ..s
                            },
                            SyscallResult::Success,
                        ),
                    }
                },
            },
        }
    }

    /// What a host must guarantee for `stop(reason)`: the remaining quantum
    /// it reports is within the one granted, a sleep lasts at least one unit,
    /// and the counters involved do not overflow a `usize`.
    pub open spec fn stop_admissible(self, reason: StopReason) -> bool {
        match self.running {
            None => true,
            Some(p) => match reason {
                StopReason::Expired => self.can_charge(self.remaining),
                StopReason::Syscall { syscall, remaining } => {
                    &&& remaining <= self.remaining
                    &&& self.can_charge((self.remaining - remaining + 1) as nat)
                    &&& match syscall {
                        Syscall::Fork(_) => self.pid_counter < usize::MAX,
                        Syscall::Sleep(n) => n > 0,
                        _ => true,
                    }
                },
            },
        }
    }
}

} // verus!
