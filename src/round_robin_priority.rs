//! Round robin served by priority: the ready record of highest current
//! priority runs first (the earliest among equals); a process loses a point
//! of priority when it blocks and regains one, up to its creation priority,
//! when its quantum runs out.
use vstd::prelude::*;

use crate::model::SchedState;
use crate::process::{procs_view, Pid, ProcessInfo};
use crate::round_robin::RoundRobin;
use crate::scheduling::{SchedulingDecision, StopReason, SyscallResult};

verus! {

pub struct RoundRobinPriority {
    inner: RoundRobin,
}

impl View for RoundRobinPriority {
    type V = SchedState;

    closed spec fn view(&self) -> SchedState {
        self.inner@
    }
}

impl RoundRobinPriority {
    pub fn new(timeslice: usize, minimum_remaining_timeslice: usize) -> (r: Self)
        requires
            timeslice > 0,
            minimum_remaining_timeslice <= timeslice,
        ensures
            r@ == SchedState::initial(timeslice as nat, minimum_remaining_timeslice as nat, true),
            r@.inv(),
    {
        RoundRobinPriority { inner: RoundRobin::with_policy(timeslice, minimum_remaining_timeslice, true) }
    }

    /// Creates a ready process whose current and base priority are `priority`.
    pub fn spawn(&mut self, priority: i8) -> (r: Pid)
        requires
            old(self)@.inv(),
            old(self)@.priority_aware,
            old(self)@.pid_counter < usize::MAX,
        ensures
            r.0 == old(self)@.pid_counter,
            final(self)@ == old(self)@.spawn(priority),
            final(self)@.inv(),
            final(self)@.priority_aware,
    {
        self.inner.add_process(priority)
    }

    pub fn next(&mut self) -> (d: SchedulingDecision)
        requires
            old(self)@.inv(),
            old(self)@.priority_aware,
            old(self)@.can_charge(old(self)@.deferred_wake),
        ensures
            (final(self)@, d) == old(self)@.next(),
            final(self)@.inv(),
            final(self)@.priority_aware,
    {
        self.inner.decide()
    }

    pub fn stop(&mut self, reason: StopReason) -> (r: SyscallResult)
        requires
            old(self)@.inv(),
            old(self)@.priority_aware,
            old(self)@.stop_admissible(reason),
        ensures
            (final(self)@, r) == old(self)@.stop(reason),
            final(self)@.inv(),
            final(self)@.priority_aware,
    {
        self.inner.apply_stop(reason)
    }

    pub fn list(&self) -> (r: Vec<ProcessInfo>)
        ensures
            procs_view(r@) == self@.records(),
    {
        self.inner.list()
    }
}

} // verus!
