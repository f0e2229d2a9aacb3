//! Facts about the sequences the model is built from.
use vstd::prelude::*;
use vstd::seq_lib::lemma_multiset_commutative;

use crate::model::{blocked_procs, charge_blocked, charge_procs, pids_of, released, Blocked};
use crate::process::Proc;

verus! {

broadcast use vstd::seq_lib::group_seq_properties, vstd::multiset::group_multiset_axioms,
    Seq::lemma_filter_push;

/// PIDs of the records of a wait set, in order.
pub open spec fn wait_pids(w: Seq<Blocked>) -> Seq<nat> {
    pids_of(blocked_procs(w))
}

/// What holds of every element holds of every element of a filter.
pub proof fn lemma_filter_all<A>(w: Seq<A>, p: spec_fn(A) -> bool, q: spec_fn(A) -> bool)
    requires
        forall|i: int| 0 <= i < w.len() ==> q(#[trigger] w[i]),
    ensures
        forall|i: int| 0 <= i < w.filter(p).len() ==> q(#[trigger] w.filter(p)[i]),
    decreases w.len(),
{
    if w.len() > 0 {
        let d = w.drop_last();
        assert(w =~= d.push(w.last()));
        assert forall|i: int| 0 <= i < d.len() implies q(#[trigger] d[i]) by {
            assert(d[i] == w[i]);
        }
        lemma_filter_all(d, p, q);
        let f = d.filter(p);
        assert forall|i: int| 0 <= i < w.filter(p).len() implies q(#[trigger] w.filter(p)[i]) by {
            if i < f.len() {
                assert(w.filter(p)[i] == f[i]);
            } else {
                assert(w.filter(p)[i] == w.last());
                assert(q(w[w.len() - 1]));
            }
        }
    } else {
        reveal(Seq::filter);
    }
}

/// A filter with a predicate false on every element is empty; one true on
/// every element keeps everything.
pub proof fn lemma_filter_trivial<A>(w: Seq<A>, p: spec_fn(A) -> bool)
    ensures
        (forall|i: int| 0 <= i < w.len() ==> !p(#[trigger] w[i])) ==> w.filter(p) == Seq::<A>::empty(),
        (forall|i: int| 0 <= i < w.len() ==> p(#[trigger] w[i])) ==> w.filter(p) == w,
    decreases w.len(),
{
    if w.len() > 0 {
        let d = w.drop_last();
        assert(w =~= d.push(w.last()));
        lemma_filter_trivial(d, p);
        if forall|i: int| 0 <= i < w.len() ==> !p(#[trigger] w[i]) {
            assert forall|i: int| 0 <= i < d.len() implies !p(#[trigger] d[i]) by {
                assert(d[i] == w[i]);
            }
            assert(!p(w[w.len() - 1]));
        }
        if forall|i: int| 0 <= i < w.len() ==> p(#[trigger] w[i]) {
            assert forall|i: int| 0 <= i < d.len() implies p(#[trigger] d[i]) by {
                assert(d[i] == w[i]);
            }
            assert(p(w[w.len() - 1]));
            assert(d.filter(p).push(w.last()) =~= w);
        }
    } else {
        reveal(Seq::filter);
        assert(w =~= Seq::<A>::empty());
    }
}

/// Filters with predicates that agree on the elements are equal.
pub proof fn lemma_filter_congruent<A>(w: Seq<A>, p: spec_fn(A) -> bool, q: spec_fn(A) -> bool)
    requires
        forall|i: int| 0 <= i < w.len() ==> p(#[trigger] w[i]) == q(w[i]),
    ensures
        w.filter(p) == w.filter(q),
    decreases w.len(),
{
    if w.len() > 0 {
        let d = w.drop_last();
        assert(w =~= d.push(w.last()));
        assert forall|i: int| 0 <= i < d.len() implies p(#[trigger] d[i]) == q(d[i]) by {
            assert(d[i] == w[i]);
        }
        lemma_filter_congruent(d, p, q);
        assert(p(w[w.len() - 1]) == q(w[w.len() - 1]));
    } else {
        reveal(Seq::filter);
    }
}

pub proof fn lemma_pids_concat(a: Seq<Proc>, b: Seq<Proc>)
    ensures
        pids_of(a + b).to_multiset() == pids_of(a).to_multiset().add(pids_of(b).to_multiset()),
{
    assert(pids_of(a + b) =~= pids_of(a) + pids_of(b));
    lemma_multiset_commutative(pids_of(a), pids_of(b));
}

pub proof fn lemma_pids_push(q: Seq<Proc>, p: Proc)
    ensures
        pids_of(q.push(p)).to_multiset() == pids_of(q).to_multiset().insert(p.pid),
{
    assert(pids_of(q.push(p)) =~= pids_of(q).push(p.pid));
}

pub proof fn lemma_pids_remove(q: Seq<Proc>, i: int)
    requires
        0 <= i < q.len(),
    ensures
        pids_of(q.remove(i)).to_multiset() == pids_of(q).to_multiset().remove(q[i].pid),
{
    assert(pids_of(q.remove(i)) =~= pids_of(q).remove(i));
}

pub proof fn lemma_wait_pids_push(w: Seq<Blocked>, b: Blocked)
    ensures
        wait_pids(w.push(b)).to_multiset() == wait_pids(w).to_multiset().insert(b.proc.pid),
{
    assert(wait_pids(w.push(b)) =~= wait_pids(w).push(b.proc.pid));
}

pub proof fn lemma_wait_pids_remove(w: Seq<Blocked>, i: int)
    requires
        0 <= i < w.len(),
    ensures
        wait_pids(w.remove(i)).to_multiset() == wait_pids(w).to_multiset().remove(w[i].proc.pid),
{
    assert(wait_pids(w.remove(i)) =~= wait_pids(w).remove(i));
}

pub proof fn lemma_pids_charged(q: Seq<Proc>, w: Seq<Blocked>, amount: nat)
    ensures
        pids_of(charge_procs(q, amount)) == pids_of(q),
        wait_pids(charge_blocked(w, amount)) == wait_pids(w),
        pids_of(released(w)) == wait_pids(w),
{
    assert(pids_of(charge_procs(q, amount)) =~= pids_of(q));
    assert(wait_pids(charge_blocked(w, amount)) =~= wait_pids(w));
    assert(pids_of(released(w)) =~= wait_pids(w));
}

/// Splitting a wait set by a predicate and its negation splits its PIDs.
pub proof fn lemma_partition_pids(w: Seq<Blocked>, p: spec_fn(Blocked) -> bool, q: spec_fn(Blocked) -> bool)
    requires
        forall|b: Blocked| #[trigger] q(b) == !p(b),
    ensures
        wait_pids(w.filter(p)).to_multiset().add(wait_pids(w.filter(q)).to_multiset())
            == wait_pids(w).to_multiset(),
    decreases w.len(),
{
    if w.len() > 0 {
        let d = w.drop_last();
        let b = w.last();
        assert(w =~= d.push(b));
        lemma_partition_pids(d, p, q);
        lemma_wait_pids_push(d, b);
        if p(b) {
            lemma_wait_pids_push(d.filter(p), b);
        } else {
            lemma_wait_pids_push(d.filter(q), b);
        }
        assert(wait_pids(w.filter(p)).to_multiset().add(wait_pids(w.filter(q)).to_multiset())
            =~= wait_pids(w).to_multiset());
    } else {
        reveal(Seq::filter);
        assert(wait_pids(w.filter(p)) =~= Seq::<nat>::empty());
        assert(wait_pids(w.filter(q)) =~= Seq::<nat>::empty());
        assert(wait_pids(w) =~= Seq::<nat>::empty());
        assert(wait_pids(w.filter(p)).to_multiset().add(wait_pids(w.filter(q)).to_multiset())
            =~= wait_pids(w).to_multiset());
    }
}

} // verus!
