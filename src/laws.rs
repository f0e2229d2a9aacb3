//! Properties of the scheduler, stated over its model and proved.
use vstd::prelude::*;

use crate::lemmas::{lemma_filter_all, lemma_filter_congruent, lemma_filter_trivial};
use crate::model::{
    blocked_procs, charge_blocked, charge_procs, first_min_sleeper, has_sleep_entry, is_due,
    not_due, not_waits_on, pids_of, released, timed_sleeper, waits_on, Blocked, SchedState,
};
use crate::process::{Pid, Proc, ProcessState};
use crate::queues::lemma_first_min_sleeper_sleeps;
use crate::scheduling::{SchedulingDecision, StopReason, Syscall};

verus! {

broadcast use vstd::seq_lib::group_seq_properties, vstd::multiset::group_multiset_axioms,
    Seq::lemma_filter_pred, Seq::filter_distributes_over_add;

/// A record that holds the CPU.
pub open spec fn is_running() -> spec_fn(Proc) -> bool {
    |p: Proc| p.state == ProcessState::Running
}

/// At most one live record is in the `Running` state.
pub proof fn lemma_at_most_one_running(s: SchedState)
    requires
        s.inv(),
    ensures
        s.records().filter(is_running()).len() <= 1,
{
    let b = blocked_procs(s.wait);
    assert forall|i: int| 0 <= i < s.ready.len() implies !is_running()(#[trigger] s.ready[i]) by {}
    assert forall|i: int| 0 <= i < b.len() implies !is_running()(#[trigger] b[i]) by {
        assert(s.wait[i].well_formed());
    }
    lemma_filter_trivial(s.ready, is_running());
    lemma_filter_trivial(b, is_running());
    s.running_seq().lemma_filter_len(is_running());
    assert(s.records().filter(is_running()) == s.ready.filter(is_running()) + b.filter(is_running())
        + s.running_seq().filter(is_running()));
}

/// The sleep ledger holds one entry per record asleep on a timer.
pub proof fn lemma_sleep_ledger_matches(s: SchedState)
    requires
        s.inv(),
    ensures
        s.sleep_amounts().len() == s.wait.filter(timed_sleeper()).len(),
{
    assert forall|i: int| 0 <= i < s.wait.len() implies has_sleep_entry()(#[trigger] s.wait[i])
        == timed_sleeper()(s.wait[i]) by {
        assert(s.wait[i].well_formed());
    }
    lemma_filter_congruent(s.wait, has_sleep_entry(), timed_sleeper());
}

/// Live records have distinct PIDs, all positive and below the next PID to
/// be handed out.
pub proof fn lemma_unique_pids(s: SchedState)
    requires
        s.inv(),
    ensures
        pids_of(s.records()).no_duplicates(),
        forall|i: int|
            0 <= i < s.records().len() ==> 1 <= #[trigger] s.records()[i].pid < s.pid_counter,
{
    let ps = pids_of(s.records());
    assert forall|x: nat| ps.to_multiset().contains(x) implies ps.to_multiset().count(x) == 1 by {
        assert(s.pid_bag().count(x) <= if 1 <= x < s.pid_counter {
            1nat
        } else {
            0nat
        });
    }
    ps.lemma_multiset_has_no_duplicates_conv();
    assert forall|i: int| 0 <= i < s.records().len() implies 1 <= #[trigger] s.records()[i].pid
        < s.pid_counter by {
        let x = s.records()[i].pid;
        assert(ps[i] == x);
        assert(ps.to_multiset().count(x) > 0);
        assert(s.pid_bag().count(x) <= if 1 <= x < s.pid_counter {
            1nat
        } else {
            0nat
        });
    }
}

/// Every live record has spent at least as much wall-clock as user time
/// plus one unit per syscall.
pub proof fn lemma_timings_consistent(s: SchedState)
    requires
        s.inv(),
    ensures
        forall|i: int| 0 <= i < s.records().len() ==> (#[trigger] s.records()[i]).timings_consistent(),
{
    assert forall|i: int| 0 <= i < s.records().len() implies (#[trigger] s.records()[i]).timings_consistent() by {
        let r = s.ready.len();
        let w = s.wait.len();
        if r <= i < r + w {
            assert(s.wait[i - r].well_formed());
        }
    }
}

/// The quantum left never exceeds the timeslice.
pub proof fn lemma_remaining_within_timeslice(s: SchedState)
    requires
        s.inv(),
    ensures
        s.remaining <= s.timeslice,
{
}

/// Time passing wakes nobody when every sleeper has more sleep left than
/// the time that passes.
pub proof fn lemma_charge_wakes_nobody(s: SchedState, amount: nat)
    requires
        forall|i: int|
            0 <= i < s.wait.len() ==> match (#[trigger] s.wait[i]).sleep_left {
                Some(v) => v > amount,
                None => true,
            },
    ensures
        s.charge(amount).ready == charge_procs(s.ready, amount),
        s.charge(amount).wait == charge_blocked(s.wait, amount),
{
    let cw = charge_blocked(s.wait, amount);
    assert forall|i: int| 0 <= i < cw.len() implies !is_due()(#[trigger] cw[i]) by {
        assert(cw[i] == s.wait[i].charged(amount));
    }
    assert forall|i: int| 0 <= i < cw.len() implies not_due()(#[trigger] cw[i]) by {
        assert(cw[i] == s.wait[i].charged(amount));
    }
    lemma_filter_trivial(cw, is_due());
    lemma_filter_trivial(cw, not_due());
    assert(released(cw.filter(is_due())) =~= Seq::<Proc>::empty());
    assert(s.charge(amount).ready =~= charge_procs(s.ready, amount));
}

/// While a process runs, asking for a decision charges nothing and wakes
/// nobody.
pub proof fn lemma_charge_zero(s: SchedState)
    requires
        s.inv(),
    ensures
        s.charge(0).ready == s.ready,
        s.charge(0).wait == s.wait,
        s.charge(0).running == s.running,
{
    assert forall|i: int| 0 <= i < s.wait.len() implies match (#[trigger] s.wait[i]).sleep_left {
        Some(v) => v > 0,
        None => true,
    } by {
        assert(s.wait[i].well_formed());
    }
    lemma_charge_wakes_nobody(s, 0);
    assert(charge_procs(s.ready, 0) =~= s.ready);
    assert(charge_blocked(s.wait, 0) =~= s.wait);
    match s.running {
        Some(p) => assert(p.charged(0) == p),
        None => {},
    }
}

/// `Signal(e)` with nobody blocked on `e` moves no record: the ready queue
/// and the wait set are what the elapsed time alone makes of them.
pub proof fn lemma_signal_without_waiters(s: SchedState, e: usize, remaining: usize)
    requires
        s.inv(),
        s.running is Some,
        remaining <= s.remaining,
        forall|i: int|
            0 <= i < s.wait.len() ==> (#[trigger] s.wait[i]).proc.state != (ProcessState::Waiting {
                event: Some(e),
            }),
    ensures
        ({
            let t = s.stop(StopReason::Syscall { syscall: Syscall::Signal(e), remaining }).0;
            let c = s.charge((s.remaining - remaining + 1) as nat);
            t.ready == c.ready && t.wait == c.wait
        }),
{
    let amount = (s.remaining - remaining + 1) as nat;
    let c = s.charge(amount);
    let cw = charge_blocked(s.wait, amount);
    assert forall|i: int| 0 <= i < cw.len() implies not_waits_on(e)(#[trigger] cw[i]) by {
        assert(cw[i] == s.wait[i].charged(amount));
    }
    lemma_filter_all(cw, not_due(), not_waits_on(e));
    assert forall|i: int| 0 <= i < c.wait.len() implies !waits_on(e)(#[trigger] c.wait[i]) by {
        assert(not_waits_on(e)(c.wait[i]));
    }
    assert forall|i: int| 0 <= i < c.wait.len() implies not_waits_on(e)(#[trigger] c.wait[i]) by {}
    lemma_filter_trivial(c.wait, waits_on(e));
    lemma_filter_trivial(c.wait, not_waits_on(e));
    assert(c.ready + released(c.wait.filter(waits_on(e))) =~= c.ready);
}

/// A running process left with one unit less than the minimum is put back
/// in the ready queue and the policy picks again, with a full quantum; with
/// exactly the minimum left it keeps the CPU and nothing changes.
pub proof fn lemma_preemption_threshold(s: SchedState)
    requires
        s.inv(),
        s.running is Some,
    ensures
        s.remaining + 1 == s.minimum_remaining ==> ({
            let p = s.running->0;
            let u = SchedState {
                ready: s.ready.push(p.with_state(ProcessState::Ready)),
                running: None,
                ..s
            };
            let q = u.ready[u.select()];
            &&& s.next().1 == SchedulingDecision::Run {
                pid: Pid(q.pid as usize),
                timeslice: s.timeslice as usize,
            }
            &&& s.next().0.remaining == s.timeslice
            &&& (!s.priority_aware && s.ready.len() > 0 ==> q.pid == s.ready[0].pid)
        }),
        s.remaining == s.minimum_remaining ==> s.next() == (s, SchedulingDecision::Run {
            pid: Pid(s.running->0.pid as usize),
            timeslice: s.remaining as usize,
        }),
{
    lemma_charge_zero(s);
    let s1 = SchedState { deferred_wake: 0, ..s.charge(s.deferred_wake) };
    assert(s1 == s);
    if s.remaining + 1 == s.minimum_remaining && s.priority_aware {
        crate::queues::lemma_top_index_bounds(s.ready.push(s.running->0.with_state(ProcessState::Ready)));
    }
}

/// When the init process exits while it is the only record, the next
/// decision is `Done`, not `Panic`, and no record is left.
pub proof fn lemma_lone_init_exit_is_done(s: SchedState, remaining: usize)
    requires
        s.inv(),
        s.running is Some,
        s.running->0.pid == 1,
        s.ready.len() == 0,
        s.wait.len() == 0,
        remaining <= s.remaining,
    ensures
        ({
            let t = s.stop(StopReason::Syscall { syscall: Syscall::Exit, remaining }).0;
            t.next().1 == SchedulingDecision::Done && t.records() == Seq::<Proc>::empty()
        }),
{
    let amount = (s.remaining - remaining + 1) as nat;
    lemma_charge_wakes_nobody(s, amount);
    let t = s.stop(StopReason::Syscall { syscall: Syscall::Exit, remaining }).0;
    assert(t.ready =~= Seq::<Proc>::empty());
    assert(t.wait =~= Seq::<Blocked>::empty());
    lemma_charge_wakes_nobody(t, t.deferred_wake);
    assert(t.records() =~= Seq::<Proc>::empty());
}

/// With nothing ready or running and every waiter blocked on an event
/// rather than asleep on a timer, the decision is `Deadlock` (unless the
/// init process has just exited, which `Panic` reports first).
pub proof fn lemma_event_waiters_deadlock(s: SchedState)
    requires
        s.inv(),
        s.running is None,
        s.ready.len() == 0,
        s.wait.len() > 0,
        !s.init_exited,
        forall|i: int|
            0 <= i < s.wait.len() ==> (#[trigger] s.wait[i]).proc.state != (ProcessState::Waiting {
                event: None,
            }),
    ensures
        s.next().1 == SchedulingDecision::Deadlock,
{
    assert forall|i: int| 0 <= i < s.wait.len() implies (#[trigger] s.wait[i]).sleep_left is None by {
        assert(s.wait[i].well_formed());
    }
    lemma_charge_wakes_nobody(s, s.deferred_wake);
    let cw = charge_blocked(s.wait, s.deferred_wake);
    assert(charge_procs(s.ready, s.deferred_wake) =~= Seq::<Proc>::empty());
    lemma_first_min_sleeper_sleeps(cw);
    if let Some(j) = first_min_sleeper(cw) {
        assert(cw[j] == s.wait[j].charged(s.deferred_wake));
    }
}

/// A process that goes to sleep for `n` units while nothing else is ready,
/// and while every other sleeper has longer to go, is the one the next
/// decision idles for: `Sleep(n)`, which puts it back in the ready queue.
/// The decision after that runs it, and by then the wall-clock of every
/// record has advanced by the user time the sleeper had used, one unit for
/// the syscall and the `n` units slept.
pub proof fn lemma_sleep_round_trip(s: SchedState, n: usize, remaining: usize)
    requires
        s.inv(),
        s.running is Some,
        s.stop_admissible(StopReason::Syscall { syscall: Syscall::Sleep(n), remaining }),
        s.ready.len() == 0,
        forall|i: int|
            0 <= i < s.wait.len() ==> match (#[trigger] s.wait[i]).sleep_left {
                Some(v) => v > s.remaining - remaining + 1 + n,
                None => true,
            },
    ensures
        ({
            let elapsed = s.remaining - remaining + 1 + n;
            let p = s.running->0;
            let s1 = s.stop(StopReason::Syscall { syscall: Syscall::Sleep(n), remaining }).0;
            let (s2, d2) = s1.next();
            let (s3, d3) = s2.next();
            &&& d2 == SchedulingDecision::Sleep(n)
            &&& s2.ready.len() == 1
            &&& s2.ready[0].pid == p.pid
            &&& d3 == SchedulingDecision::Run { pid: Pid(p.pid as usize), timeslice: s.timeslice as usize }
            &&& s3.running is Some
            &&& s3.running->0.pid == p.pid
            &&& s3.running->0.total == p.total + elapsed
            &&& s3.wait.len() == s.wait.len()
            &&& forall|i: int|
                0 <= i < s.wait.len() ==> {
                    &&& (#[trigger] s3.wait[i]).proc.pid == s.wait[i].proc.pid
                    &&& s3.wait[i].proc.total == s.wait[i].proc.total + elapsed
                }
        }),
{
    let p = s.running->0;
    let a1 = (s.remaining - remaining + 1) as nat;
    lemma_charge_wakes_nobody(s, a1);
    let cw1 = charge_blocked(s.wait, a1);
    let s1 = s.stop(StopReason::Syscall { syscall: Syscall::Sleep(n), remaining }).0;
    assert(s1.ready =~= Seq::<Proc>::empty());
    assert(s1.wait.drop_last() =~= cw1);
    assert forall|i: int| 0 <= i < s1.wait.len() implies match (#[trigger] s1.wait[i]).sleep_left {
        Some(v) => v > 0,
        None => true,
    } by {
        if i < cw1.len() {
            assert(s1.wait[i] == s.wait[i].charged(a1));
        }
    }
    lemma_charge_wakes_nobody(s1, 0);
    let w1 = charge_blocked(s1.wait, 0);
    assert(w1 =~= s1.wait);
    assert(charge_procs(s1.ready, 0) =~= s1.ready);
    lemma_first_min_sleeper_sleeps(cw1);
    if let Some(j) = first_min_sleeper(cw1) {
        assert(s1.wait[j] == cw1[j]);
        assert(cw1[j] == s.wait[j].charged(a1));
    }
    assert(first_min_sleeper(s1.wait) == Some(s1.wait.len() - 1));
    let (s2, d2) = s1.next();
    assert(s2.wait =~= cw1);
    assert forall|i: int| 0 <= i < s2.wait.len() implies match (#[trigger] s2.wait[i]).sleep_left {
        Some(v) => v > n,
        None => true,
    } by {
        assert(s2.wait[i] == s.wait[i].charged(a1));
    }
    lemma_charge_wakes_nobody(s2, n as nat);
    let (s3, d3) = s2.next();
    assert forall|i: int| 0 <= i < s.wait.len() implies {
        &&& (#[trigger] s3.wait[i]).proc.pid == s.wait[i].proc.pid
        &&& s3.wait[i].proc.total == s.wait[i].proc.total + a1 + n
    } by {
        assert(s3.wait[i] == s2.wait[i].charged(n as nat));
        assert(s2.wait[i] == s.wait[i].charged(a1));
    }
}

} // verus!
