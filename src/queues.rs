//! The loops over the ready queue and the wait set.
use vstd::prelude::*;

use crate::model::{
    Blocked, charge_blocked, charge_procs, first_min_sleeper, is_due, not_due, not_waits_on,
    released, top_index, waits_on,
};
use crate::process::{procs_view, Proc, ProcessInfo, ProcessState};

verus! {

broadcast use vstd::seq_lib::group_seq_properties, Seq::lemma_filter_push;

/// A blocked record with its remaining sleep, if it sleeps on a timer.
#[derive(Clone, Copy, Debug)]
pub struct Waiter {
    process: ProcessInfo,
    sleep_left: Option<usize>,
}

impl View for Waiter {
    type V = Blocked;

    closed spec fn view(&self) -> Blocked {
        Blocked {
            proc: self.process@,
            sleep_left: match self.sleep_left {
                Some(v) => Some(v as nat),
                None => None,
            },
        }
    }
}

pub open spec fn waiters_view(v: Seq<Waiter>) -> Seq<Blocked> {
    v.map_values(|w: Waiter| w@)
}

impl Waiter {
    pub(crate) fn new(process: ProcessInfo, sleep_left: Option<usize>) -> (r: Waiter)
        ensures
            r@ == (Blocked {
                proc: process@,
                sleep_left: match sleep_left {
                    Some(v) => Some(v as nat),
                    None => None,
                },
            }),
    {
        Waiter { process, sleep_left }
    }

    pub(crate) fn process(&self) -> (r: ProcessInfo)
        ensures
            r@ == self@.proc,
    {
        self.process
    }

    pub(crate) fn sleep_left(&self) -> (r: Option<usize>)
        ensures
            match r {
                Some(v) => self@.sleep_left == Some(v as nat),
                None => self@.sleep_left is None,
            },
    {
        self.sleep_left
    }

    fn charge(&mut self, amount: usize)
        requires
            old(self)@.proc.total + amount <= usize::MAX,
        ensures
            final(self)@ == old(self)@.charged(amount as nat),
    {
        self.process.charge(amount);
        self.sleep_left = match self.sleep_left {
            Some(v) => Some(if v >= amount { v - amount } else { 0 }),
            None => None,
        };
    }
}

proof fn lemma_procs_view_push(v: Seq<ProcessInfo>, p: ProcessInfo)
    ensures
        procs_view(v.push(p)) == procs_view(v).push(p@),
{
    assert(procs_view(v.push(p)) =~= procs_view(v).push(p@));
}

proof fn lemma_waiters_view_push(v: Seq<Waiter>, w: Waiter)
    ensures
        waiters_view(v.push(w)) == waiters_view(v).push(w@),
{
    assert(waiters_view(v.push(w)) =~= waiters_view(v).push(w@));
}

proof fn lemma_released_push(w: Seq<Blocked>, b: Blocked)
    ensures
        released(w.push(b)) == released(w).push(b.proc.with_state(ProcessState::Ready)),
{
    assert(released(w.push(b)) =~= released(w).push(b.proc.with_state(ProcessState::Ready)));
}

/// Adds `amount` units of wall-clock to every record of `q`.
pub(crate) fn charge_all(q: &mut Vec<ProcessInfo>, amount: usize)
    requires
        forall|j: int| 0 <= j < old(q)@.len() ==> #[trigger] old(q)@[j]@.total + amount <= usize::MAX,
    ensures
        procs_view(final(q)@) == charge_procs(procs_view(old(q)@), amount as nat),
{
    let ghost q0 = q@;
    let mut i: usize = 0;
    while i < q.len()
        invariant
            0 <= i <= q@.len(),
            q@.len() == q0.len(),
            forall|j: int| 0 <= j < q0.len() ==> #[trigger] q0[j]@.total + amount <= usize::MAX,
            forall|j: int| 0 <= j < i ==> #[trigger] q@[j]@ == q0[j]@.charged(amount as nat),
            forall|j: int| i <= j < q@.len() ==> #[trigger] q@[j] == q0[j],
        decreases q@.len() - i,
    {
        let mut p = q[i];
        p.charge(amount);
        q[i] = p;
        i += 1;
    }
    assert(procs_view(q@) =~= charge_procs(procs_view(q0), amount as nat));
}

/// Charges `amount` units to every record of `wait`, appends the timed
/// sleepers whose sleep is over to `ready` (in wait order, made ready), and
/// returns the rest.
pub(crate) fn serve_sleep(wait: &Vec<Waiter>, ready: &mut Vec<ProcessInfo>, amount: usize) -> (kept: Vec<Waiter>)
    requires
        forall|j: int| 0 <= j < wait@.len() ==> #[trigger] wait@[j]@.proc.total + amount <= usize::MAX,
    ensures
        waiters_view(kept@) == charge_blocked(waiters_view(wait@), amount as nat).filter(not_due()),
        procs_view(final(ready)@) == procs_view(old(ready)@) + released(
            charge_blocked(waiters_view(wait@), amount as nat).filter(is_due()),
        ),
{
    let ghost cw = charge_blocked(waiters_view(wait@), amount as nat);
    let ghost r0 = procs_view(ready@);
    let mut kept: Vec<Waiter> = Vec::new();
    let mut i: usize = 0;
    while i < wait.len()
        invariant
            0 <= i <= wait@.len(),
            cw == charge_blocked(waiters_view(wait@), amount as nat),
            forall|j: int| 0 <= j < wait@.len() ==> #[trigger] wait@[j]@.proc.total + amount <= usize::MAX,
            waiters_view(kept@) == cw.take(i as int).filter(not_due()),
            procs_view(ready@) == r0 + released(cw.take(i as int).filter(is_due())),
        decreases wait@.len() - i,
    {
        let mut w = wait[i];
        w.charge(amount);
        assert(cw.take(i + 1) =~= cw.take(i as int).push(cw[i as int]));
        assert(w@ == cw[i as int]);
        if w.sleep_left == Some(0usize) {
            let mut p = w.process;
            p.set_state(ProcessState::Ready);
            proof {
                lemma_procs_view_push(ready@, p);
                lemma_released_push(cw.take(i as int).filter(is_due()), w@);
            }
            ready.push(p);
        } else {
            proof {
                lemma_waiters_view_push(kept@, w);
            }
            kept.push(w);
        }
        i += 1;
    }
    assert(cw.take(wait@.len() as int) =~= cw);
    kept
}

/// Appends the records blocked on `e` to `ready` (in wait order, made
/// ready) and returns the rest.
pub(crate) fn release_waiters(wait: &Vec<Waiter>, ready: &mut Vec<ProcessInfo>, e: usize) -> (kept: Vec<Waiter>)
    ensures
        waiters_view(kept@) == waiters_view(wait@).filter(not_waits_on(e)),
        procs_view(final(ready)@) == procs_view(old(ready)@) + released(
            waiters_view(wait@).filter(waits_on(e)),
        ),
{
    let ghost ww = waiters_view(wait@);
    let ghost r0 = procs_view(ready@);
    let mut kept: Vec<Waiter> = Vec::new();
    let mut i: usize = 0;
    while i < wait.len()
        invariant
            0 <= i <= wait@.len(),
            ww == waiters_view(wait@),
            waiters_view(kept@) == ww.take(i as int).filter(not_waits_on(e)),
            procs_view(ready@) == r0 + released(ww.take(i as int).filter(waits_on(e))),
        decreases wait@.len() - i,
    {
        let w = wait[i];
        assert(ww.take(i + 1) =~= ww.take(i as int).push(ww[i as int]));
        let blocked_on_e = match w.process.state() {
            ProcessState::Waiting { event: Some(x) } => x == e,
            _ => false,
        };
        if blocked_on_e {
            let mut p = w.process;
            p.set_state(ProcessState::Ready);
            proof {
                lemma_procs_view_push(ready@, p);
                lemma_released_push(ww.take(i as int).filter(waits_on(e)), w@);
            }
            ready.push(p);
        } else {
            proof {
                lemma_waiters_view_push(kept@, w);
            }
            kept.push(w);
        }
        i += 1;
    }
    assert(ww.take(wait@.len() as int) =~= ww);
    kept
}

} // verus!

verus! {

pub proof fn lemma_top_index_bounds(q: Seq<Proc>)
    requires
        q.len() > 0,
    ensures
        0 <= top_index(q) < q.len(),
    decreases q.len(),
{
    if q.len() > 1 {
        lemma_top_index_bounds(q.drop_last());
    }
}

pub proof fn lemma_first_min_sleeper_sleeps(w: Seq<Blocked>)
    ensures
        match first_min_sleeper(w) {
            Some(j) => 0 <= j < w.len() && w[j].sleep_left is Some,
            None => forall|j: int| 0 <= j < w.len() ==> (#[trigger] w[j]).sleep_left is None,
        },
    decreases w.len(),
{
    if w.len() > 0 {
        let d = w.drop_last();
        lemma_first_min_sleeper_sleeps(d);
        assert forall|j: int| 0 <= j < w.len() - 1 implies #[trigger] d[j] == w[j] by {}
        match first_min_sleeper(d) {
            Some(j) => {
                assert(d[j] == w[j]);
            },
            None => {
                assert forall|j: int| 0 <= j < w.len() implies (#[trigger] w[j]).sleep_left is None
                    || first_min_sleeper(w) is Some by {
                    if j < w.len() - 1 {
                        assert(d[j] == w[j]);
                    }
                }
            },
        }
    }
}

/// Index of the first record of highest priority in a non-empty queue.
pub(crate) fn top_priority_index(q: &Vec<ProcessInfo>) -> (r: usize)
    requires
        q@.len() > 0,
    ensures
        r == top_index(procs_view(q@)),
        r < q@.len(),
{
    let ghost v = procs_view(q@);
    let mut best: usize = 0;
    let mut i: usize = 1;
    while i < q.len()
        invariant
            1 <= i <= q@.len(),
            v == procs_view(q@),
            best < i,
            best == top_index(v.take(i as int)),
        decreases q@.len() - i,
    {
        assert(v.take(i + 1).drop_last() =~= v.take(i as int));
        if q[i].priority() > q[best].priority() {
            best = i;
        }
        i += 1;
    }
    assert(v.take(q@.len() as int) =~= v);
    best
}

/// Index of the timed sleeper with the least sleep left (the earliest
/// among equals), if any record sleeps on a timer.
pub(crate) fn min_sleeper_index(w: &Vec<Waiter>) -> (r: Option<usize>)
    ensures
        match r {
            Some(i) => first_min_sleeper(waiters_view(w@)) == Some(i as int),
            None => first_min_sleeper(waiters_view(w@)) is None,
        },
{
    let ghost v = waiters_view(w@);
    let mut best: Option<usize> = None;
    let mut best_left: usize = 0;
    let mut i: usize = 0;
    while i < w.len()
        invariant
            0 <= i <= w@.len(),
            v == waiters_view(w@),
            match best {
                Some(b) => {
                    &&& first_min_sleeper(v.take(i as int)) == Some(b as int)
                    &&& b < i
                    &&& v[b as int].sleep_left == Some(best_left as nat)
                },
                None => first_min_sleeper(v.take(i as int)) is None,
            },
        decreases w@.len() - i,
    {
        let ghost t = v.take(i + 1);
        assert(t.drop_last() =~= v.take(i as int));
        assert(t.last() == v[i as int]);
        match w[i].sleep_left {
            Some(left) => {
                match best {
                    Some(b) => {
                        assert(t[b as int] == v[b as int]);
                        if left < best_left {
                            best = Some(i);
                            best_left = left;
                        }
                    },
                    None => {
                        best = Some(i);
                        best_left = left;
                    },
                }
            },
            None => {},
        }
        i += 1;
    }
    assert(v.take(w@.len() as int) =~= v);
    best
}

} // verus!
