use vstd::prelude::*;

verus! {

/// Identifier of a simulated process. PID 1 is the init process.
#[derive(Clone, Copy, Debug, PartialEq, Eq, Structural, Hash)]
pub struct Pid(pub usize);

impl Pid {
    pub fn new(id: usize) -> (r: Pid)
        ensures
            r.0 == id,
    {
        Pid(id)
    }

    pub fn as_usize(&self) -> (r: usize)
        ensures
            r == self.0,
    {
        self.0
    }
}

/// Where a record is in its lifecycle. `Waiting { event: None }` is a timed
/// sleep; `Waiting { event: Some(e) }` is blocked until event `e` is signalled.
#[derive(Clone, Copy, Debug, PartialEq, Eq, Structural)]
pub enum ProcessState {
    Ready,
    Running,
    Waiting { event: Option<usize> },
}

/// Mathematical model of a process record.
pub struct Proc {
    pub pid: nat,
    pub state: ProcessState,
    /// Wall-clock units since creation.
    pub total: nat,
    /// Number of syscalls issued.
    pub syscalls: nat,
    /// Units spent executing user code.
    pub cpu: nat,
    pub priority: int,
    pub base_priority: int,
}

impl Proc {
    /// Total time covers user time and one unit per syscall.
    pub open spec fn timings_consistent(self) -> bool {
        self.total >= self.cpu + self.syscalls
    }

    pub open spec fn charged(self, amount: nat) -> Proc {
        Proc { total: self.total + amount, ..self }
    }

    pub open spec fn with_state(self, state: ProcessState) -> Proc {
        Proc { state, ..self }
    }

    /// Bookkeeping of the issuing process for a syscall that found `used`
    /// units of user time since it was last scheduled (its wall-clock is
    /// charged with the rest of the records).
    pub open spec fn after_syscall(self, used: nat) -> Proc {
        Proc { syscalls: self.syscalls + 1, cpu: self.cpu + used, ..self }
    }

    /// Bookkeeping of a process whose quantum of `used` units ran out.
    pub open spec fn after_expiry(self, used: nat) -> Proc {
        Proc { cpu: self.cpu + used, ..self }
    }

    /// One step of priority restoration, never above the creation priority.
    pub open spec fn aged(self) -> Proc {
        Proc {
            priority: if self.priority < self.base_priority { self.priority + 1 } else { self.priority },
            ..self
        }
    }

    /// One step of priority loss, never below zero.
    pub open spec fn decayed(self) -> Proc {
        Proc { priority: if self.priority > 0 { self.priority - 1 } else { self.priority }, ..self }
    }
}

/// A snapshot of one process record.
#[derive(Clone, Copy, Debug)]
pub struct ProcessInfo {
    pid: Pid,
    state: ProcessState,
    timings: (usize, usize, usize),
    priority: i8,
    base_priority: i8,
}

impl View for ProcessInfo {
    type V = Proc;

    closed spec fn view(&self) -> Proc {
        Proc {
            pid: self.pid.0 as nat,
            state: self.state,
            total: self.timings.0 as nat,
            syscalls: self.timings.1 as nat,
            cpu: self.timings.2 as nat,
            priority: self.priority as int,
            base_priority: self.base_priority as int,
        }
    }
}

impl ProcessInfo {
    /// A fresh record, ready to run, with no time accounted to it yet.
    pub(crate) fn created(pid: usize, priority: i8) -> (r: ProcessInfo)
        ensures
            r@ == (Proc {
                pid: pid as nat,
                state: ProcessState::Ready,
                total: 0,
                syscalls: 0,
                cpu: 0,
                priority: priority as int,
                base_priority: priority as int,
            }),
    {
        ProcessInfo {
            pid: Pid(pid),
            state: ProcessState::Ready,
            timings: (0, 0, 0),
            priority,
            base_priority: priority,
        }
    }

    pub fn pid(&self) -> (r: Pid)
        ensures
            r.0 == self@.pid,
    {
        self.pid
    }

    pub fn state(&self) -> (r: ProcessState)
        ensures
            r == self@.state,
    {
        self.state
    }

    /// `(total, syscalls, cpu)`.
    pub fn timings(&self) -> (r: (usize, usize, usize))
        ensures
            r.0 == self@.total,
            r.1 == self@.syscalls,
            r.2 == self@.cpu,
    {
        self.timings
    }

    /// The current priority.
    pub fn priority(&self) -> (r: i8)
        ensures
            r == self@.priority,
    {
        self.priority
    }

    /// The priority the record was created with.
    pub fn base_priority(&self) -> (r: i8)
        ensures
            r == self@.base_priority,
    {
        self.base_priority
    }

    /// Free-form payload; records of this scheduler carry none.
    pub fn extra(&self) -> (r: String)
        ensures
            r@ == Seq::<char>::empty(),
    {
        String::new()
    }

    pub(crate) fn set_state(&mut self, state: ProcessState)
        ensures
            final(self)@ == old(self)@.with_state(state),
    {
        self.state = state;
    }

    pub(crate) fn charge(&mut self, amount: usize)
        requires
            old(self)@.total + amount <= usize::MAX,
        ensures
            final(self)@ == old(self)@.charged(amount as nat),
    {
        self.timings.0 = self.timings.0 + amount;
    }

    /// Books a syscall onto a record whose wall-clock was already charged
    /// with `used + 1` units.
    pub(crate) fn count_syscall(&mut self, used: usize)
        requires
            old(self)@.cpu + old(self)@.syscalls + used + 1 <= old(self)@.total,
        ensures
            final(self)@ == old(self)@.after_syscall(used as nat),
    {
        self.timings.1 = self.timings.1 + 1;
        self.timings.2 = self.timings.2 + used;
    }

    /// Books an expired quantum onto a record whose wall-clock was already
    /// charged with `used` units.
    pub(crate) fn count_expiry(&mut self, used: usize)
        requires
            old(self)@.cpu + old(self)@.syscalls + used <= old(self)@.total,
        ensures
            final(self)@ == old(self)@.after_expiry(used as nat),
    {
        self.timings.2 = self.timings.2 + used;
    }

    pub(crate) fn age(&mut self)
        ensures
            final(self)@ == old(self)@.aged(),
    {
        if self.priority < self.base_priority {
            self.priority = self.priority + 1;
        }
    }

    pub(crate) fn decay(&mut self)
        ensures
            final(self)@ == old(self)@.decayed(),
    {
        if self.priority > 0 {
            self.priority = self.priority - 1;
        }
    }
}

} // verus!

verus! {

/// The models of a sequence of records.
pub open spec fn procs_view(v: Seq<ProcessInfo>) -> Seq<Proc> {
    v.map_values(|p: ProcessInfo| p@)
}

} // verus!
