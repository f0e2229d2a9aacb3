//! The scheduler itself: executable state whose view is a `SchedState` and
//! whose operations are the transitions of that model.
use vstd::prelude::*;

use crate::model::{blocked_procs, SchedState};
use crate::preservation::{
    lemma_bag_split, lemma_charge_inv, lemma_initial_inv, lemma_next_inv, lemma_spawn_inv,
    lemma_rerun_inv, lemma_stop_inv,
};
use crate::process::{procs_view, Pid, ProcessInfo, ProcessState};
use crate::queues::{
    charge_all, lemma_first_min_sleeper_sleeps, min_sleeper_index, release_waiters, serve_sleep,
    top_priority_index, waiters_view, Waiter,
};
use crate::scheduling::{SchedulingDecision, StopReason, Syscall, SyscallResult};

verus! {

broadcast use vstd::seq_lib::group_seq_properties;

/// Round-robin scheduler; optionally serves the ready queue by priority.
pub struct RoundRobin {
    timeslice: usize,
    minimum_remaining_timeslice: usize,
    /// Ready records, in order of arrival.
    ready: Vec<ProcessInfo>,
    /// Blocked records, in order of arrival, each with its sleep left.
    wait: Vec<Waiter>,
    /// The next PID to hand out.
    pid_counter: usize,
    running_process: Option<ProcessInfo>,
    /// What is left of the running process's quantum.
    remaining_running_time: usize,
    /// PID 1 exited and no `Panic` was reported for it yet.
    init: bool,
    /// Units the host idled for, charged at the next decision.
    sleep: usize,
    /// Serve the ready queue by priority rather than by arrival alone.
    priority_aware: bool,
}

impl View for RoundRobin {
    type V = SchedState;

    closed spec fn view(&self) -> SchedState {
        SchedState {
            priority_aware: self.priority_aware,
            timeslice: self.timeslice as nat,
            minimum_remaining: self.minimum_remaining_timeslice as nat,
            ready: procs_view(self.ready@),
            wait: waiters_view(self.wait@),
            running: match self.running_process {
                Some(p) => Some(p@),
                None => None,
            },
            remaining: self.remaining_running_time as nat,
            pid_counter: self.pid_counter as nat,
            init_exited: self.init,
            deferred_wake: self.sleep as nat,
        }
    }
}

impl RoundRobin {
    /// A round-robin scheduler with quantum `timeslice`; a process left with
    /// less than `minimum_remaining_timeslice` of its quantum yields at the
    /// next decision.
    pub fn new(timeslice: usize, minimum_remaining_timeslice: usize) -> (r: Self)
        requires
            timeslice > 0,
            minimum_remaining_timeslice <= timeslice,
        ensures
            r@ == SchedState::initial(timeslice as nat, minimum_remaining_timeslice as nat, false),
            r@.inv(),
    {
        Self::with_policy(timeslice, minimum_remaining_timeslice, false)
    }

    pub(crate) fn with_policy(timeslice: usize, minimum_remaining_timeslice: usize, priority_aware: bool) -> (r: Self)
        requires
            timeslice > 0,
            minimum_remaining_timeslice <= timeslice,
        ensures
            r@ == SchedState::initial(timeslice as nat, minimum_remaining_timeslice as nat, priority_aware),
            r@.inv(),
    {
        let r = RoundRobin {
            timeslice,
            minimum_remaining_timeslice,
            ready: Vec::new(),
            wait: Vec::new(),
            pid_counter: 1,
            running_process: None,
            remaining_running_time: timeslice,
            init: false,
            sleep: 0,
            priority_aware,
        };
        assert(r@.ready =~= Seq::empty());
        assert(r@.wait =~= Seq::empty());
        proof {
            lemma_initial_inv(timeslice as nat, minimum_remaining_timeslice as nat, priority_aware);
        }
        r
    }

    /// Hands out the next PID.
    pub fn generate_pid(&mut self) -> (r: Pid)
        requires
            old(self)@.inv(),
            !old(self)@.priority_aware,
            old(self)@.pid_counter < usize::MAX,
        ensures
            r.0 == old(self)@.pid_counter,
            final(self)@ == (SchedState { pid_counter: old(self)@.pid_counter + 1, ..old(self)@ }),
            final(self)@.inv(),
            !final(self)@.priority_aware,
    {
        let new_pid = self.take_pid();
        proof {
            lemma_bag_split(old(self)@);
            lemma_bag_split(self@);
        }
        new_pid
    }

    fn take_pid(&mut self) -> (r: Pid)
        requires
            old(self)@.pid_counter < usize::MAX,
        ensures
            r.0 == old(self)@.pid_counter,
            final(self)@ == (SchedState { pid_counter: old(self)@.pid_counter + 1, ..old(self)@ }),
    {
        let new_pid = Pid::new(self.pid_counter);
        self.pid_counter = self.pid_counter + 1;
        new_pid
    }

    /// Appends a fresh ready record with the next PID.
    pub(crate) fn add_process(&mut self, priority: i8) -> (r: Pid)
        requires
            old(self)@.inv(),
            old(self)@.pid_counter < usize::MAX,
        ensures
            r.0 == old(self)@.pid_counter,
            final(self)@ == old(self)@.spawn(priority),
            final(self)@.inv(),
    {
        proof {
            lemma_spawn_inv(self@, priority);
        }
        let pid = self.take_pid();
        let child = ProcessInfo::created(pid.as_usize(), priority);
        proof {
            assert(procs_view(self.ready@.push(child)) =~= procs_view(self.ready@).push(child@));
        }
        self.ready.push(child);
        pid
    }

    /// Lets `amount` units of time pass for the ready and blocked records:
    /// each is charged with them, and the timed sleepers that are done move
    /// to the ready queue. The running record is not charged here.
    pub fn increase_timings(&mut self, amount: usize)
        requires
            old(self)@.inv(),
            !old(self)@.priority_aware,
            old(self)@.can_charge(amount as nat),
        ensures
            final(self)@ == old(self)@.charge(amount as nat),
            final(self)@.inv(),
            !final(self)@.priority_aware,
    {
        self.pass_time(amount)
    }

    fn pass_time(&mut self, amount: usize)
        requires
            old(self)@.inv(),
            old(self)@.can_charge(amount as nat),
        ensures
            final(self)@ == old(self)@.charge(amount as nat),
            final(self)@.inv(),
    {
        let ghost s0 = self@;
        proof {
            lemma_charge_inv(s0, amount as nat);
        }
        proof {
            assert forall|j: int| 0 <= j < self.ready@.len() implies #[trigger] self.ready@[j]@.total + amount
                <= usize::MAX by {
                assert(s0.ready[j] == self.ready@[j]@);
            }
            assert forall|j: int| 0 <= j < self.wait@.len() implies #[trigger] self.wait@[j]@.proc.total
                + amount <= usize::MAX by {
                assert(s0.wait[j] == self.wait@[j]@);
            }
        }
        charge_all(&mut self.ready, amount);
        let kept = serve_sleep(&self.wait, &mut self.ready, amount);
        self.wait = kept;
    }

    /// The decision when nothing holds the CPU.
    fn dispatch(&mut self) -> (d: SchedulingDecision)
        requires
            old(self)@.running is None,
        ensures
            (final(self)@, d) == old(self)@.dispatch(),
    {
        let ghost s0 = self@;
        if self.ready.len() > 0 {
            if self.init {
                self.init = false;
                return SchedulingDecision::Panic;
            }
            let i: usize = if self.priority_aware {
                top_priority_index(&self.ready)
            } else {
                0
            };
            let mut p = self.ready.remove(i);
            proof {
                assert(procs_view(self.ready@) =~= s0.ready.remove(i as int));
            }
            p.set_state(ProcessState::Running);
            let pid = p.pid();
            self.running_process = Some(p);
            self.remaining_running_time = self.timeslice;
            return SchedulingDecision::Run { pid, timeslice: self.timeslice };
        }
        if self.wait.len() == 0 {
            return SchedulingDecision::Done;
        }
        if self.init {
            self.init = false;
            return SchedulingDecision::Panic;
        }
        match min_sleeper_index(&self.wait) {
            None => SchedulingDecision::Deadlock,
            Some(i) => {
                proof {
                    lemma_first_min_sleeper_sleeps(s0.wait);
                }
                let w = self.wait.remove(i);
                assert(w@ == s0.wait[i as int]);
                proof {
                    assert(waiters_view(self.wait@) =~= s0.wait.remove(i as int));
                }
                let amount: usize = match w.sleep_left() {
                    Some(v) => v,
                    None => 0,
                };
                let mut p = w.process();
                p.set_state(ProcessState::Ready);
                proof {
                    assert(procs_view(self.ready@.push(p)) =~= s0.ready.push(p@));
                }
                self.ready.push(p);
                self.sleep = amount;
                SchedulingDecision::Sleep(amount)
            },
        }
    }

    /// The next scheduling decision, under either policy.
    pub(crate) fn decide(&mut self) -> (d: SchedulingDecision)
        requires
            old(self)@.inv(),
            old(self)@.can_charge(old(self)@.deferred_wake),
        ensures
            (final(self)@, d) == old(self)@.next(),
            final(self)@.inv(),
    {
        proof {
            lemma_next_inv(self@);
        }
        let amount = self.sleep;
        self.pass_time(amount);
        self.sleep = 0;
        let ghost s1 = self@;
        match self.running_process {
            Some(p) => {
                if self.remaining_running_time < self.minimum_remaining_timeslice {
                    let mut p = p;
                    p.set_state(ProcessState::Ready);
                    proof {
                        assert(procs_view(self.ready@.push(p)) =~= s1.ready.push(p@));
                    }
                    self.ready.push(p);
                    self.running_process = None;
                    self.dispatch()
                } else {
                    SchedulingDecision::Run { pid: p.pid(), timeslice: self.remaining_running_time }
                }
            },
            None => self.dispatch(),
        }
    }

    /// The effect of the running process giving the CPU back, under either
    /// policy.
    pub(crate) fn apply_stop(&mut self, reason: StopReason) -> (r: SyscallResult)
        requires
            old(self)@.inv(),
            old(self)@.stop_admissible(reason),
        ensures
            (final(self)@, r) == old(self)@.stop(reason),
            final(self)@.inv(),
    {
        proof {
            lemma_stop_inv(self@, reason);
        }
        let ghost s0 = self@;
        let p0 = match self.running_process {
            Some(p) => p,
            None => {
                return SyscallResult::NoRunningProcess;
            },
        };
        match reason {
            StopReason::Expired => {
                let used = self.remaining_running_time;
                self.pass_time(used);
                let mut p = p0;
                p.charge(used);
                p.count_expiry(used);
                if self.priority_aware {
                    p.age();
                }
                p.set_state(ProcessState::Ready);
                proof {
                    assert(procs_view(self.ready@.push(p)) =~= self@.ready.push(p@));
                }
                self.ready.push(p);
                self.running_process = None;
                self.remaining_running_time = self.timeslice;
                SyscallResult::Success
            },
            StopReason::Syscall { syscall, remaining } => {
                let used = self.remaining_running_time - remaining;
                self.pass_time(used + 1);
                let ghost s1 = self@;
                let mut p = p0;
                p.charge(used + 1);
                p.count_syscall(used);
                match syscall {
                    Syscall::Fork(priority) => {
                        self.running_process = Some(p);
                        self.remaining_running_time = remaining;
                        proof {
                            lemma_rerun_inv(s1, p@, remaining as nat);
                        }
                        let pid = self.add_process(priority);
                        SyscallResult::Pid(pid)
                    },
                    Syscall::Sleep(n) => {
                        self.block(p, ProcessState::Waiting { event: None }, Some(n));
                        SyscallResult::Success
                    },
                    Syscall::Wait(e) => {
                        self.block(p, ProcessState::Waiting { event: Some(e) }, None);
                        SyscallResult::Success
                    },
                    Syscall::Signal(e) => {
                        let kept = release_waiters(&self.wait, &mut self.ready, e);
                        self.wait = kept;
                        self.running_process = Some(p);
                        self.remaining_running_time = remaining;
                        SyscallResult::Success
                    },
                    Syscall::Exit => {
                        if p.pid().as_usize() == 1 {
                            self.init = true;
                        }
                        self.running_process = None;
                        self.remaining_running_time = self.timeslice;
                        SyscallResult::Success
                    },
                }
            },
        }
    }

    /// Moves `p`, the process that held the CPU, to the wait set.
    fn block(&mut self, p: ProcessInfo, state: ProcessState, sleep_left: Option<usize>)
        ensures
            final(self)@ == (SchedState {
                wait: old(self)@.wait.push(
                    crate::model::Blocked {
                        proc: old(self)@.blocked_record(p@, state),
                        sleep_left: match sleep_left {
                            Some(v) => Some(v as nat),
                            None => None,
                        },
                    },
                ),
                running: None,
                remaining: old(self)@.timeslice,
                ..old(self)@
            }),
    {
        let mut p = p;
        if self.priority_aware {
            p.decay();
        }
        p.set_state(state);
        let w = Waiter::new(p, sleep_left);
        proof {
            assert(waiters_view(self.wait@.push(w)) =~= self@.wait.push(w@));
        }
        self.wait.push(w);
        self.running_process = None;
        self.remaining_running_time = self.timeslice;
    }

    /// Every live record: the ready queue, then the wait set, then the
    /// running process.
    pub fn list(&self) -> (r: Vec<ProcessInfo>)
        ensures
            procs_view(r@) == self@.records(),
    {
        let ghost s0 = self@;
        let mut r: Vec<ProcessInfo> = Vec::new();
        let mut i: usize = 0;
        while i < self.ready.len()
            invariant
                0 <= i <= self.ready@.len(),
                s0 == self@,
                procs_view(r@) == s0.ready.take(i as int),
            decreases self.ready@.len() - i,
        {
            proof {
                assert(procs_view(r@.push(self.ready@[i as int])) =~= procs_view(r@).push(self.ready@[i as int]@));
                assert(s0.ready.take(i + 1) =~= s0.ready.take(i as int).push(s0.ready[i as int]));
            }
            r.push(self.ready[i]);
            i += 1;
        }
        assert(s0.ready.take(self.ready@.len() as int) =~= s0.ready);
        let ghost procs = blocked_procs(s0.wait);
        let mut j: usize = 0;
        while j < self.wait.len()
            invariant
                0 <= j <= self.wait@.len(),
                s0 == self@,
                procs == blocked_procs(s0.wait),
                procs_view(r@) == s0.ready + procs.take(j as int),
            decreases self.wait@.len() - j,
        {
            let p = self.wait[j].process();
            proof {
                assert(procs_view(r@.push(p)) =~= procs_view(r@).push(p@));
                assert(procs.take(j + 1) =~= procs.take(j as int).push(procs[j as int]));
                assert(s0.ready + procs.take(j + 1) =~= (s0.ready + procs.take(j as int)).push(p@));
            }
            r.push(p);
            j += 1;
        }
        assert(procs.take(self.wait@.len() as int) =~= procs);
        match self.running_process {
            Some(p) => {
                proof {
                    assert(procs_view(r@.push(p)) =~= s0.records());
                }
                r.push(p);
            },
            None => {
                assert(procs_view(r@) =~= s0.records());
            },
        }
        r
    }

    /// Creates a ready process with the given priority and the next PID; the
    /// host creates the init process this way.
    pub fn spawn(&mut self, priority: i8) -> (r: Pid)
        requires
            old(self)@.inv(),
            !old(self)@.priority_aware,
            old(self)@.pid_counter < usize::MAX,
        ensures
            r.0 == old(self)@.pid_counter,
            final(self)@ == old(self)@.spawn(priority),
            final(self)@.inv(),
            !final(self)@.priority_aware,
    {
        self.add_process(priority)
    }

    /// Produces the next scheduling decision: the head of the ready queue
    /// runs next.
    pub fn next(&mut self) -> (d: SchedulingDecision)
        requires
            old(self)@.inv(),
            !old(self)@.priority_aware,
            old(self)@.can_charge(old(self)@.deferred_wake),
        ensures
            (final(self)@, d) == old(self)@.next(),
            final(self)@.inv(),
            !final(self)@.priority_aware,
    {
        self.decide()
    }

    /// Applies the effect of the running process giving the CPU back: its
    /// quantum ran out, or it issued a syscall.
    pub fn stop(&mut self, reason: StopReason) -> (r: SyscallResult)
        requires
            old(self)@.inv(),
            !old(self)@.priority_aware,
            old(self)@.stop_admissible(reason),
        ensures
            (final(self)@, r) == old(self)@.stop(reason),
            final(self)@.inv(),
            !final(self)@.priority_aware,
    {
        self.apply_stop(reason)
    }
}

} // verus!
