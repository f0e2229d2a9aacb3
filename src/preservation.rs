//! The scheduler invariant holds initially and every transition keeps it.
use vstd::prelude::*;

use crate::lemmas::{
    lemma_filter_all, lemma_partition_pids, lemma_pids_charged, lemma_pids_concat, lemma_pids_push,
    lemma_pids_remove, lemma_wait_pids_push, lemma_wait_pids_remove, wait_pids,
};
use crate::queues::{lemma_first_min_sleeper_sleeps, lemma_top_index_bounds};
use crate::model::{
    blocked_procs, charge_blocked, charge_procs, first_min_sleeper, is_due, not_due, pids_of,
    not_waits_on, released, waits_on, Blocked, SchedState,
};
use crate::process::{Proc, ProcessState};
use crate::scheduling::{StopReason, Syscall};

verus! {

broadcast use vstd::seq_lib::group_seq_properties, vstd::multiset::group_multiset_axioms,
    Seq::lemma_filter_pred;

/// The PIDs of a state are those of its ready queue, its wait set and its
/// running slot.
pub proof fn lemma_bag_split(s: SchedState)
    ensures
        s.pid_bag() == pids_of(s.ready).to_multiset().add(wait_pids(s.wait).to_multiset()).add(
            pids_of(s.running_seq()).to_multiset(),
        ),
{
    lemma_pids_concat(s.ready + blocked_procs(s.wait), s.running_seq());
    lemma_pids_concat(s.ready, blocked_procs(s.wait));
}

pub proof fn lemma_initial_inv(timeslice: nat, minimum_remaining: nat, priority_aware: bool)
    requires
        timeslice > 0,
        minimum_remaining <= timeslice,
    ensures
        SchedState::initial(timeslice, minimum_remaining, priority_aware).inv(),
{
    let s = SchedState::initial(timeslice, minimum_remaining, priority_aware);
    assert(pids_of(s.records()) =~= Seq::<nat>::empty());
}

/// Letting time pass keeps the invariant and moves no PID in or out.
pub proof fn lemma_charge_inv(s: SchedState, amount: nat)
    requires
        s.inv(),
    ensures
        s.charge(amount).inv(),
        s.charge(amount).pid_bag() == s.pid_bag(),
{
    let t = s.charge(amount);
    let cw = charge_blocked(s.wait, amount);
    let due = cw.filter(is_due());
    let kept = cw.filter(not_due());
    assert forall|i: int| 0 <= i < cw.len() implies (|b: Blocked| b.proc.timings_consistent())(
        #[trigger] cw[i],
    ) by {
        assert(s.wait[i].well_formed());
    }
    lemma_filter_all(cw, is_due(), |b: Blocked| b.proc.timings_consistent());
    assert forall|i: int| 0 <= i < cw.len() implies (|b: Blocked|
        b.sleep_left != Some(0nat) ==> b.well_formed())(#[trigger] cw[i]) by {
        assert(s.wait[i].well_formed());
    }
    lemma_filter_all(cw, not_due(), |b: Blocked| b.sleep_left != Some(0nat) ==> b.well_formed());
    assert forall|i: int| 0 <= i < t.ready.len() implies {
        &&& (#[trigger] t.ready[i]).state == ProcessState::Ready
        &&& t.ready[i].timings_consistent()
    } by {
        if i >= s.ready.len() {
            assert(due[i - s.ready.len()].proc.timings_consistent());
        }
    }
    assert forall|i: int| 0 <= i < t.wait.len() implies (#[trigger] t.wait[i]).well_formed() by {
        assert(not_due()(kept[i]));
    }
    lemma_bag_split(s);
    lemma_bag_split(t);
    lemma_pids_concat(charge_procs(s.ready, amount), released(due));
    lemma_pids_charged(s.ready, s.wait, amount);
    lemma_pids_charged(s.ready, due, amount);
    lemma_partition_pids(cw, is_due(), not_due());
    assert(pids_of(t.running_seq()) =~= pids_of(s.running_seq()));
    assert(t.pid_bag() =~= s.pid_bag());
}

/// Creating a process keeps the invariant and adds exactly its PID.
pub proof fn lemma_spawn_inv(s: SchedState, priority: i8)
    requires
        s.inv(),
    ensures
        s.spawn(priority).inv(),
        s.spawn(priority).pid_bag() == s.pid_bag().insert(s.pid_counter),
{
    let t = s.spawn(priority);
    lemma_bag_split(s);
    lemma_bag_split(t);
    lemma_pids_push(s.ready, t.ready.last());
    assert(t.ready.drop_last() =~= s.ready);
    assert(t.pid_bag() =~= s.pid_bag().insert(s.pid_counter));
    assert forall|x: nat| #[trigger] t.pid_bag().count(x) <= if 1 <= x < t.pid_counter {
        1nat
    } else {
        0nat
    } by {
        assert(s.pid_bag().count(x) <= if 1 <= x < s.pid_counter {
            1nat
        } else {
            0nat
        });
    }
}

/// Moving the running record to the back of the ready queue keeps the
/// invariant.
pub proof fn lemma_demote_inv(s: SchedState)
    requires
        s.inv(),
        s.running is Some,
    ensures
        (SchedState {
            ready: s.ready.push(s.running->0.with_state(ProcessState::Ready)),
            running: None,
            ..s
        }).inv(),
{
    let p = s.running->0;
    let t = SchedState { ready: s.ready.push(p.with_state(ProcessState::Ready)), running: None, ..s };
    lemma_bag_split(s);
    lemma_bag_split(t);
    lemma_pids_push(s.ready, p.with_state(ProcessState::Ready));
    assert(pids_of(s.running_seq()) =~= seq![p.pid]);
    assert(pids_of(t.running_seq()) =~= Seq::<nat>::empty());
    assert(t.pid_bag() =~= s.pid_bag());
}

/// The decision taken when nothing runs keeps the invariant.
pub proof fn lemma_dispatch_inv(s: SchedState)
    requires
        s.inv(),
        s.running is None,
        s.deferred_wake == 0,
    ensures
        s.dispatch().0.inv(),
{
    let t = s.dispatch().0;
    lemma_bag_split(s);
    lemma_bag_split(t);
    if s.ready.len() > 0 {
        if !s.init_exited {
            let i = s.select();
            if s.priority_aware {
                lemma_top_index_bounds(s.ready);
            }
            let p = s.ready[i];
            lemma_pids_remove(s.ready, i);
            assert(pids_of(s.ready)[i] == p.pid);
            assert(pids_of(s.ready).to_multiset().count(p.pid) > 0);
            assert(pids_of(t.running_seq()) =~= seq![p.pid]);
            assert(pids_of(s.running_seq()) =~= Seq::<nat>::empty());
            assert(t.pid_bag() =~= s.pid_bag());
            assert forall|j: int| 0 <= j < t.ready.len() implies {
                &&& (#[trigger] t.ready[j]).state == ProcessState::Ready
                &&& t.ready[j].timings_consistent()
            } by {
                if j < i {
                    assert(t.ready[j] == s.ready[j]);
                } else {
                    assert(t.ready[j] == s.ready[j + 1]);
                }
            }
        }
    } else if s.wait.len() > 0 && !s.init_exited {
        lemma_first_min_sleeper_sleeps(s.wait);
        if let Some(i) = first_min_sleeper(s.wait) {
            let b = s.wait[i];
            assert(b.well_formed());
            lemma_wait_pids_remove(s.wait, i);
            lemma_pids_push(s.ready, b.proc.with_state(ProcessState::Ready));
            assert(wait_pids(s.wait)[i] == b.proc.pid);
            assert(wait_pids(s.wait).to_multiset().count(b.proc.pid) > 0);
            assert(t.pid_bag() =~= s.pid_bag());
            assert forall|j: int| 0 <= j < t.wait.len() implies (#[trigger] t.wait[j]).well_formed() by {
                if j < i {
                    assert(t.wait[j] == s.wait[j]);
                } else {
                    assert(t.wait[j] == s.wait[j + 1]);
                }
            }
        }
    }
}

/// Every scheduling decision keeps the invariant.
pub proof fn lemma_next_inv(s: SchedState)
    requires
        s.inv(),
    ensures
        s.next().0.inv(),
{
    lemma_charge_inv(s, s.deferred_wake);
    let s1 = SchedState { deferred_wake: 0, ..s.charge(s.deferred_wake) };
    lemma_bag_split(s1);
    lemma_bag_split(s.charge(s.deferred_wake));
    assert(s1.pid_bag() == s.charge(s.deferred_wake).pid_bag());
    assert(s1.inv());
    match s1.running {
        Some(p) => {
            if s1.remaining < s1.minimum_remaining {
                lemma_demote_inv(s1);
                lemma_dispatch_inv(
                    SchedState { ready: s1.ready.push(p.with_state(ProcessState::Ready)), running: None, ..s1 },
                );
            }
        },
        None => {
            lemma_dispatch_inv(s1);
        },
    }
}

/// Replacing the running record by one with the same PID and consistent
/// timings, and setting a remaining quantum within the slice, keeps the
/// invariant.
pub proof fn lemma_rerun_inv(s: SchedState, q: Proc, remaining: nat)
    requires
        s.inv(),
        s.running is Some,
        q.pid == s.running->0.pid,
        q.state == ProcessState::Running,
        q.timings_consistent(),
        remaining <= s.timeslice,
    ensures
        (SchedState { running: Some(q), remaining, ..s }).inv(),
        (SchedState { running: Some(q), remaining, ..s }).pid_bag() == s.pid_bag(),
{
    let t = SchedState { running: Some(q), remaining, ..s };
    lemma_bag_split(s);
    lemma_bag_split(t);
    assert(pids_of(t.running_seq()) =~= pids_of(s.running_seq()));
}

/// Every `stop` a host may issue keeps the invariant.
pub proof fn lemma_stop_inv(s: SchedState, reason: StopReason)
    requires
        s.inv(),
        s.stop_admissible(reason),
    ensures
        s.stop(reason).0.inv(),
{
    if let Some(p) = s.running {
        let t = s.stop(reason).0;
        match reason {
            StopReason::Expired => {
                let s1 = s.charge(s.remaining);
                lemma_charge_inv(s, s.remaining);
                let q = t.ready.last();
                lemma_bag_split(s1);
                lemma_bag_split(t);
                lemma_pids_push(s1.ready, q);
                assert(t.ready.drop_last() =~= s1.ready);
                assert(pids_of(s1.running_seq()) =~= seq![p.pid]);
                assert(pids_of(t.running_seq()) =~= Seq::<nat>::empty());
                assert(t.pid_bag() =~= s1.pid_bag());
            },
            StopReason::Syscall { syscall, remaining } => {
                let used = (s.remaining - remaining) as nat;
                let s1 = s.charge(used + 1);
                let q = p.charged(used + 1).after_syscall(used);
                lemma_charge_inv(s, used + 1);
                lemma_bag_split(s1);
                lemma_bag_split(t);
                assert(pids_of(s1.running_seq()) =~= seq![p.pid]);
                match syscall {
                    Syscall::Fork(priority) => {
                        lemma_rerun_inv(s1, q, remaining as nat);
                        lemma_spawn_inv(SchedState { running: Some(q), remaining: remaining as nat, ..s1 }, priority);
                    },
                    Syscall::Sleep(_) | Syscall::Wait(_) => {
                        let b = t.wait.last();
                        lemma_wait_pids_push(s1.wait, b);
                        assert(t.wait.drop_last() =~= s1.wait);
                        assert(pids_of(t.running_seq()) =~= Seq::<nat>::empty());
                        assert(t.pid_bag() =~= s1.pid_bag());
                        assert forall|j: int| 0 <= j < t.wait.len() implies (#[trigger] t.wait[j]).well_formed() by {
                            if j < s1.wait.len() {
                                assert(t.wait[j] == s1.wait[j]);
                            }
                        }
                    },
                    Syscall::Signal(e) => {
                        let u = SchedState { running: Some(q), remaining: remaining as nat, ..s1 };
                        lemma_rerun_inv(s1, q, remaining as nat);
                        let woken = s1.wait.filter(waits_on(e));
                        let kept = s1.wait.filter(not_waits_on(e));
                        lemma_bag_split(u);
                        lemma_pids_concat(s1.ready, released(woken));
                        lemma_pids_charged(s1.ready, woken, 0);
                        lemma_partition_pids(s1.wait, waits_on(e), not_waits_on(e));
                        assert(pids_of(t.running_seq()) =~= pids_of(u.running_seq()));
                        assert(t.pid_bag() =~= u.pid_bag());
                        assert forall|i: int| 0 <= i < s1.wait.len() implies (|b: Blocked|
                            b.well_formed())(#[trigger] s1.wait[i]) by {}
                        lemma_filter_all(s1.wait, waits_on(e), |b: Blocked| b.well_formed());
                        lemma_filter_all(s1.wait, not_waits_on(e), |b: Blocked| b.well_formed());
                        assert forall|i: int| 0 <= i < t.ready.len() implies {
                            &&& (#[trigger] t.ready[i]).state == ProcessState::Ready
                            &&& t.ready[i].timings_consistent()
                        } by {
                            if i >= s1.ready.len() {
                                assert(woken[i - s1.ready.len()].well_formed());
                            }
                        }
                        assert forall|j: int| 0 <= j < t.wait.len() implies (#[trigger] t.wait[j]).well_formed() by {
                            assert(kept[j].well_formed());
                        }
                    },
                    Syscall::Exit => {
                        assert(pids_of(t.running_seq()) =~= Seq::<nat>::empty());
                        assert(t.pid_bag() =~= s1.pid_bag().remove(p.pid));
                        assert forall|x: nat| #[trigger] t.pid_bag().count(x) <= if 1 <= x < t.pid_counter {
                            1nat
                        } else {
                            0nat
                        } by {
                            assert(s1.pid_bag().count(x) <= if 1 <= x < s1.pid_counter {
                                1nat
                            } else {
                                0nat
                            });
                        }
                    },
                }
            },
        }
    }
}

} // verus!
