//! Timings only go up: every record a transition leaves behind is a record
//! that was there before, with no timing field lower than it was.
use vstd::prelude::*;

use crate::model::{
    blocked_procs, charge_blocked, first_min_sleeper, is_due, not_due, not_waits_on, released,
    waits_on, Blocked, SchedState,
};
use crate::scheduling::{StopReason, Syscall};
use crate::process::{Proc, ProcessState};
use crate::queues::{lemma_first_min_sleeper_sleeps, lemma_top_index_bounds};

verus! {

broadcast use vstd::seq_lib::group_seq_properties, Seq::lemma_filter_contains_rev;

/// `b` is record `a` at a later time: the same process, and none of its
/// timings went down.
pub open spec fn grew(a: Proc, b: Proc) -> bool {
    &&& a.pid == b.pid
    &&& a.total <= b.total
    &&& a.syscalls <= b.syscalls
    &&& a.cpu <= b.cpu
}

/// `r` is some record of `before`, at a later time.
pub open spec fn grown_from(before: Seq<Proc>, r: Proc) -> bool {
    exists|i: int| 0 <= i < before.len() && grew(#[trigger] before[i], r)
}

/// Every record of `after` is a record of `before` at a later time.
pub open spec fn time_only_grew(before: Seq<Proc>, after: Seq<Proc>) -> bool {
    forall|j: int| 0 <= j < after.len() ==> grown_from(before, #[trigger] after[j])
}

pub proof fn lemma_grown_from_member(before: Seq<Proc>, x: Proc, r: Proc)
    requires
        before.contains(x),
        grew(x, r),
    ensures
        grown_from(before, r),
{
    let i = choose|i: int| 0 <= i < before.len() && before[i] == x;
    assert(grew(before[i], r));
}

pub proof fn lemma_time_only_grew_trans(a: Seq<Proc>, b: Seq<Proc>, c: Seq<Proc>)
    requires
        time_only_grew(a, b),
        time_only_grew(b, c),
    ensures
        time_only_grew(a, c),
{
    assert forall|j: int| 0 <= j < c.len() implies grown_from(a, #[trigger] c[j]) by {
        assert(grown_from(b, c[j]));
        let k = choose|k: int| 0 <= k < b.len() && grew(#[trigger] b[k], c[j]);
        assert(grown_from(a, b[k]));
        let i = choose|i: int| 0 <= i < a.len() && grew(#[trigger] a[i], b[k]);
        assert(grew(a[i], c[j]));
    }
}

/// Where each record of the ready queue, the wait set and the running slot
/// stands among all records.
pub proof fn lemma_records_members(s: SchedState)
    ensures
        forall|i: int| 0 <= i < s.ready.len() ==> s.records().contains(#[trigger] s.ready[i]),
        forall|i: int| 0 <= i < s.wait.len() ==> s.records().contains(#[trigger] s.wait[i].proc),
        s.running is Some ==> s.records().contains(s.running->0),
{
    let r = s.records();
    assert forall|i: int| 0 <= i < s.ready.len() implies r.contains(#[trigger] s.ready[i]) by {
        assert(r[i] == s.ready[i]);
    }
    assert forall|i: int| 0 <= i < s.wait.len() implies r.contains(#[trigger] s.wait[i].proc) by {
        assert(r[s.ready.len() + i] == blocked_procs(s.wait)[i]);
    }
    if s.running is Some {
        assert(r[r.len() - 1] == s.running->0);
    }
}

/// A record of a filtered, charged wait set grew from a record of the wait
/// set.
pub proof fn lemma_filtered_blocked_grew(
    s: SchedState,
    amount: nat,
    p: spec_fn(Blocked) -> bool,
    k: int,
)
    requires
        0 <= k < charge_blocked(s.wait, amount).filter(p).len(),
    ensures
        grown_from(s.records(), charge_blocked(s.wait, amount).filter(p)[k].proc),
{
    let cw = charge_blocked(s.wait, amount);
    let b = cw.filter(p)[k];
    assert(cw.filter(p).contains(b));
    assert(cw.contains(b));
    let n = choose|n: int| 0 <= n < cw.len() && cw[n] == b;
    lemma_records_members(s);
    assert(s.records().contains(s.wait[n].proc));
    lemma_grown_from_member(s.records(), s.wait[n].proc, b.proc);
}

/// Letting time pass only adds time to records.
pub proof fn lemma_charge_grows(s: SchedState, amount: nat)
    ensures
        time_only_grew(s.records(), s.charge(amount).records()),
{
    let t = s.charge(amount);
    let cw = charge_blocked(s.wait, amount);
    let due = cw.filter(is_due());
    let rl = s.ready.len();
    let dl = due.len();
    let kl = t.wait.len();
    lemma_records_members(s);
    assert forall|j: int| 0 <= j < t.records().len() implies grown_from(
        s.records(),
        #[trigger] t.records()[j],
    ) by {
        let r = t.records()[j];
        if j < rl {
            assert(r == s.ready[j].charged(amount));
            lemma_grown_from_member(s.records(), s.ready[j], r);
        } else if j < rl + dl {
            assert(r == released(due)[j - rl]);
            lemma_filtered_blocked_grew(s, amount, is_due(), j - rl);
        } else if j < rl + dl + kl {
            assert(r == blocked_procs(t.wait)[j - rl - dl]);
            lemma_filtered_blocked_grew(s, amount, not_due(), j - rl - dl);
        } else {
            assert(r == s.running->0);
            lemma_grown_from_member(s.records(), s.running->0, r);
        }
    }
}

/// The records of a state, part by part.
pub proof fn lemma_parts_grow(s: SchedState, t: SchedState)
    requires
        forall|j: int| 0 <= j < t.ready.len() ==> grown_from(s.records(), #[trigger] t.ready[j]),
        forall|j: int| 0 <= j < t.wait.len() ==> grown_from(s.records(), #[trigger] t.wait[j].proc),
        t.running is Some ==> grown_from(s.records(), t.running->0),
    ensures
        time_only_grew(s.records(), t.records()),
{
    let rl = t.ready.len();
    let wl = t.wait.len();
    assert forall|j: int| 0 <= j < t.records().len() implies grown_from(
        s.records(),
        #[trigger] t.records()[j],
    ) by {
        if j < rl {
            assert(t.records()[j] == t.ready[j]);
        } else if j < rl + wl {
            assert(t.records()[j] == t.wait[j - rl].proc);
        } else {
            assert(t.records()[j] == t.running->0);
        }
    }
}

/// Moving the running record back to the ready queue takes no time from it.
pub proof fn lemma_demote_grows(s: SchedState)
    requires
        s.running is Some,
    ensures
        time_only_grew(
            s.records(),
            (SchedState {
                ready: s.ready.push(s.running->0.with_state(ProcessState::Ready)),
                running: None,
                ..s
            }).records(),
        ),
{
    let t = SchedState {
        ready: s.ready.push(s.running->0.with_state(ProcessState::Ready)),
        running: None,
        ..s
    };
    lemma_records_members(s);
    assert forall|j: int| 0 <= j < t.ready.len() implies grown_from(s.records(), #[trigger] t.ready[j]) by {
        if j < s.ready.len() {
            lemma_grown_from_member(s.records(), s.ready[j], t.ready[j]);
        } else {
            lemma_grown_from_member(s.records(), s.running->0, t.ready[j]);
        }
    }
    assert forall|j: int| 0 <= j < t.wait.len() implies grown_from(s.records(), #[trigger] t.wait[j].proc) by {
        lemma_grown_from_member(s.records(), s.wait[j].proc, t.wait[j].proc);
    }
    lemma_parts_grow(s, t);
}

/// The decision taken when nothing runs takes no time from any record.
pub proof fn lemma_dispatch_grows(s: SchedState)
    requires
        s.running is None,
    ensures
        time_only_grew(s.records(), s.dispatch().0.records()),
{
    let t = s.dispatch().0;
    lemma_records_members(s);
    if s.ready.len() > 0 && !s.init_exited {
        let i = s.select();
        if s.priority_aware {
            lemma_top_index_bounds(s.ready);
        }
        assert forall|j: int| 0 <= j < t.ready.len() implies grown_from(s.records(), #[trigger] t.ready[j]) by {
            if j < i {
                lemma_grown_from_member(s.records(), s.ready[j], t.ready[j]);
            } else {
                lemma_grown_from_member(s.records(), s.ready[j + 1], t.ready[j]);
            }
        }
        lemma_grown_from_member(s.records(), s.ready[i], t.running->0);
    } else if s.ready.len() == 0 && s.wait.len() > 0 && !s.init_exited && first_min_sleeper(s.wait) is Some {
        let i = first_min_sleeper(s.wait)->0;
        lemma_first_min_sleeper_sleeps(s.wait);
        assert forall|j: int| 0 <= j < t.ready.len() implies grown_from(s.records(), #[trigger] t.ready[j]) by {
            lemma_grown_from_member(s.records(), s.wait[i].proc, t.ready[j]);
        }
        assert forall|j: int| 0 <= j < t.wait.len() implies grown_from(s.records(), #[trigger] t.wait[j].proc) by {
            if j < i {
                lemma_grown_from_member(s.records(), s.wait[j].proc, t.wait[j].proc);
            } else {
                lemma_grown_from_member(s.records(), s.wait[j + 1].proc, t.wait[j].proc);
            }
        }
    } else {
        assert forall|j: int| 0 <= j < t.ready.len() implies grown_from(s.records(), #[trigger] t.ready[j]) by {
            lemma_grown_from_member(s.records(), s.ready[j], t.ready[j]);
        }
    }
    assert forall|j: int| 0 <= j < t.wait.len() implies grown_from(s.records(), #[trigger] t.wait[j].proc) by {
        if !(s.ready.len() == 0 && s.wait.len() > 0 && !s.init_exited && first_min_sleeper(s.wait) is Some) {
            lemma_grown_from_member(s.records(), s.wait[j].proc, t.wait[j].proc);
        }
    }
    lemma_parts_grow(s, t);
}

pub proof fn lemma_time_only_grew_refl(a: Seq<Proc>)
    ensures
        time_only_grew(a, a),
{
    assert forall|j: int| 0 <= j < a.len() implies grown_from(a, #[trigger] a[j]) by {
        assert(grew(a[j], a[j]));
    }
}

/// A scheduling decision takes no time from any record, and creates none:
/// every record after it is a record from before, none of whose timings
/// went down.
pub proof fn lemma_next_only_adds_time(s: SchedState)
    ensures
        time_only_grew(s.records(), s.next().0.records()),
{
    let c = s.charge(s.deferred_wake);
    let s1 = SchedState { deferred_wake: 0, ..c };
    lemma_charge_grows(s, s.deferred_wake);
    assert(s1.records() == c.records());
    match s1.running {
        Some(p) => {
            if s1.remaining < s1.minimum_remaining {
                let u = SchedState { ready: s1.ready.push(p.with_state(ProcessState::Ready)), running: None, ..s1 };
                lemma_demote_grows(s1);
                lemma_dispatch_grows(u);
                lemma_time_only_grew_trans(s.records(), s1.records(), u.records());
                lemma_time_only_grew_trans(s.records(), u.records(), u.dispatch().0.records());
            }
        },
        None => {
            lemma_dispatch_grows(s1);
            lemma_time_only_grew_trans(s.records(), s1.records(), s1.dispatch().0.records());
        },
    }
}

/// Giving the CPU back takes no time from any record: every record after
/// it is a record from before, none of whose timings went down, or the
/// record a `Fork` just created, which has the next PID.
pub proof fn lemma_stop_only_adds_time(s: SchedState, reason: StopReason)
    ensures
        ({
            let t = s.stop(reason).0;
            forall|j: int|
                0 <= j < t.records().len() ==> grown_from(s.records(), #[trigger] t.records()[j])
                    || t.records()[j].pid == s.pid_counter
        }),
{
    let t = s.stop(reason).0;
    if let Some(p) = s.running {
        let amount: nat = match reason {
            StopReason::Expired => s.remaining,
            StopReason::Syscall { remaining, .. } => ((s.remaining - remaining) as nat + 1) as nat,
        };
        let s1 = s.charge(amount);
        lemma_charge_grows(s, amount);
        lemma_records_members(s1);
        assert(s1.running == Some(p));
        // What `stop` makes of each part of `s1`, record by record.
        assert forall|j: int| 0 <= j < t.ready.len() implies grown_from(s1.records(), #[trigger] t.ready[j])
            || t.ready[j].pid == s.pid_counter by {
            if j < s1.ready.len() {
                lemma_grown_from_member(s1.records(), s1.ready[j], t.ready[j]);
            } else if reason is Expired {
                lemma_grown_from_member(s1.records(), p, t.ready[j]);
            } else if let StopReason::Syscall { syscall: Syscall::Signal(e), .. } = reason {
                let woken = s1.wait.filter(waits_on(e));
                let b = woken[j - s1.ready.len()];
                assert(woken.contains(b));
                assert(s1.wait.contains(b));
                let n = choose|n: int| 0 <= n < s1.wait.len() && s1.wait[n] == b;
                lemma_grown_from_member(s1.records(), s1.wait[n].proc, t.ready[j]);
            }
        }
        assert forall|j: int| 0 <= j < t.wait.len() implies grown_from(s1.records(), #[trigger] t.wait[j].proc) by {
            if j < s1.wait.len() && !(reason matches StopReason::Syscall { syscall: Syscall::Signal(_), .. }) {
                lemma_grown_from_member(s1.records(), s1.wait[j].proc, t.wait[j].proc);
            } else if let StopReason::Syscall { syscall: Syscall::Signal(e), .. } = reason {
                let kept = s1.wait.filter(not_waits_on(e));
                let b = kept[j];
                assert(kept.contains(b));
                assert(s1.wait.contains(b));
                let n = choose|n: int| 0 <= n < s1.wait.len() && s1.wait[n] == b;
                lemma_grown_from_member(s1.records(), s1.wait[n].proc, t.wait[j].proc);
            } else {
                lemma_grown_from_member(s1.records(), p, t.wait[j].proc);
            }
        }
        if t.running is Some {
            lemma_grown_from_member(s1.records(), p, t.running->0);
        }
        let rl = t.ready.len();
        let wl = t.wait.len();
        assert forall|j: int| 0 <= j < t.records().len() implies grown_from(s.records(), #[trigger] t.records()[j])
            || t.records()[j].pid == s.pid_counter by {
            let r = t.records()[j];
            if j < rl {
                assert(r == t.ready[j]);
            } else if j < rl + wl {
                assert(r == t.wait[j - rl].proc);
            } else {
                assert(r == t.running->0);
            }
            if grown_from(s1.records(), r) {
                let k = choose|k: int| 0 <= k < s1.records().len() && grew(#[trigger] s1.records()[k], r);
                assert(grown_from(s.records(), s1.records()[k]));
                let i = choose|i: int| 0 <= i < s.records().len() && grew(#[trigger] s.records()[i], s1.records()[k]);
                assert(grew(s.records()[i], r));
            }
        }
    } else {
        lemma_time_only_grew_refl(s.records());
    }
}

} // verus!
