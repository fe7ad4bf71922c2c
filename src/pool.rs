//! The pool of talks still waiting for a session.
use vstd::multiset::Multiset;
use vstd::prelude::*;

use crate::knapsack::{
    best,
    descending_below,
    knapsack01_dyn,
    pick,
    picked,
    selected_total,
    total,
};
use crate::talk::Talk;

verus! {

/// The talks among the first `i` of `ts` whose index is not in `p`, in order.
pub open spec fn remaining(ts: Seq<Talk>, p: Seq<int>, i: nat) -> Seq<Talk>
    decreases i,
{
    if i == 0 {
        Seq::empty()
    } else if p.contains(i - 1) {
        remaining(ts, p, (i - 1) as nat)
    } else {
        remaining(ts, p, (i - 1) as nat).push(ts[i - 1])
    }
}

/// The session that a pool `ts` fills within `cap` seconds.
pub open spec fn session_of(ts: Seq<Talk>, cap: int) -> Seq<Talk> {
    picked(ts, pick(ts, ts.len(), cap))
}

/// The pool that is left once that session is taken out.
pub open spec fn pool_after(ts: Seq<Talk>, cap: int) -> Seq<Talk> {
    remaining(ts, pick(ts, ts.len(), cap), ts.len())
}

proof fn lemma_remaining_same_members(ts: Seq<Talk>, p: Seq<int>, q: Seq<int>, i: nat)
    requires
        forall|j: int| 0 <= j < i ==> (p.contains(j) <==> q.contains(j)),
    ensures
        remaining(ts, p, i) == remaining(ts, q, i),
    decreases i,
{
    if i > 0 {
        lemma_remaining_same_members(ts, p, q, (i - 1) as nat);
    }
}

/// Taking out the talks at the indices `p` loses none and adds none.
pub proof fn lemma_split_conserves(ts: Seq<Talk>, p: Seq<int>, i: nat)
    requires
        i <= ts.len(),
        descending_below(p, i as int),
    ensures
        ts.take(i as int).to_multiset() == remaining(ts, p, i).to_multiset().add(
            picked(ts, p).to_multiset(),
        ),
    decreases i,
{
    broadcast use vstd::seq_lib::group_to_multiset_ensures;
    broadcast use vstd::seq_lib::lemma_multiset_commutative;

    if i == 0 {
        assert(p.len() == 0) by {
            if p.len() > 0 {
                assert(p[0] < i as int);
            }
        }
        assert(picked(ts, p) =~= Seq::empty());
        assert(ts.take(0) =~= Seq::empty());
        assert(remaining(ts, p, 0).to_multiset() =~= Multiset::empty());
    } else {
        let j = (i - 1) as int;
        assert(ts.take(i as int) =~= ts.take(j).push(ts[j]));
        if p.len() > 0 && p[0] == j {
            let q = p.drop_first();
            assert forall|k: int| 0 <= k < q.len() implies 0 <= #[trigger] q[k] < j by {
                assert(q[k] == p[k + 1]);
                assert(p[0] > p[k + 1]);
            }
            assert forall|k: int, l: int| 0 <= k < l < q.len() implies q[k] > q[l] by {
                assert(q[k] == p[k + 1] && q[l] == p[l + 1]);
            }
            assert forall|m: int| 0 <= m < j implies (p.contains(m) <==> q.contains(m)) by {
                if p.contains(m) {
                    let k = choose|k: int| 0 <= k < p.len() && #[trigger] p[k] == m;
                    assert(k != 0);
                    assert(q[k - 1] == m);
                }
                if q.contains(m) {
                    let k = choose|k: int| 0 <= k < q.len() && #[trigger] q[k] == m;
                    assert(p[k + 1] == m);
                }
            }
            assert(p.contains(j)) by {
                assert(p[0] == j);
            }
            lemma_remaining_same_members(ts, p, q, j as nat);
            lemma_split_conserves(ts, q, j as nat);
            assert(picked(ts, p) =~= seq![ts[j]] + picked(ts, q));
            assert(seq![ts[j]].to_multiset() =~= Multiset::empty().insert(ts[j])) by {
                assert(seq![ts[j]] =~= Seq::<Talk>::empty().push(ts[j]));
            }
            assert(Seq::<Talk>::empty().to_multiset() =~= Multiset::empty());
        } else {
            assert forall|k: int| 0 <= k < p.len() implies 0 <= #[trigger] p[k] < j by {
                if k > 0 {
                    assert(p[0] > p[k]);
                }
            }
            assert(!p.contains(j));
            lemma_split_conserves(ts, p, j as nat);
        }
    }
}

/// Fills a session of `session_duration` seconds from `talks`: takes out the
/// talks that the knapsack picks and returns them, the last picked first.
pub fn schedule(session_duration: usize, talks: &mut Vec<Talk>) -> (session: Vec<Talk>)
    requires
        session_duration < usize::MAX,
    ensures
        session@ == session_of(old(talks)@, session_duration as int),
        final(talks)@ == pool_after(old(talks)@, session_duration as int),
        old(talks)@.to_multiset() == final(talks)@.to_multiset().add(session@.to_multiset()),
        total(session@) <= session_duration,
        total(session@) == best(old(talks)@, old(talks)@.len(), session_duration as int),
        forall|sel: Set<int>|
            selected_total(old(talks)@, sel, old(talks)@.len()) <= session_duration
                ==> selected_total(old(talks)@, sel, old(talks)@.len()) <= total(session@),
{
    let ghost ts = talks@;
    let n = talks.len();
    let chosen = knapsack01_dyn(talks, session_duration);
    let ghost p = pick(ts, n as nat, session_duration as int);
    assert(chosen@.len() == p.len());
    let mut session: Vec<Talk> = Vec::new();
    let mut taken: Vec<bool> = Vec::new();
    let mut k: usize = 0;
    while k < n
        invariant
            k <= n,
            taken@.len() == k,
            forall|j: int| 0 <= j < k ==> !#[trigger] taken@[j],
        decreases n - k,
    {
        taken.push(false);
        k = k + 1;
    }
    let mut k: usize = 0;
    while k < chosen.len()
        invariant
            ts == talks@,
            n == ts.len(),
            chosen@.map_values(|j: usize| j as int) == p,
            descending_below(p, n as int),
            k <= chosen@.len(),
            taken@.len() == n,
            forall|j: int| 0 <= j < n ==> (#[trigger] taken@[j] <==> p.take(k as int).contains(j)),
            session@ == picked(ts, p.take(k as int)),
        decreases chosen@.len() - k,
    {
        let j = chosen[k];
        assert(p[k as int] == j as int);
        session.push(talks[j].copy());
        taken.set(j, true);
        proof {
            assert(p.take(k + 1) =~= p.take(k as int).push(j as int));
            assert(session@ =~= picked(ts, p.take(k + 1)));
            assert forall|m: int| 0 <= m < n implies (#[trigger] taken@[m] <==> p.take(
                k + 1,
            ).contains(m)) by {
                if m != j {
                    if p.take(k + 1).contains(m) {
                        let pk = p.take(k + 1);
                        let x = choose|x: int| 0 <= x < pk.len() && #[trigger] pk[x] == m;
                        assert(p.take(k as int)[x] == m);
                    }
                } else {
                    assert(p.take(k + 1)[k as int] == m);
                }
            }
        }
        k = k + 1;
    }
    assert(p.take(p.len() as int) =~= p);
    let mut rest: Vec<Talk> = Vec::new();
    let mut i: usize = 0;
    while i < n
        invariant
            ts == talks@,
            n == ts.len(),
            i <= n,
            taken@.len() == n,
            forall|j: int| 0 <= j < n ==> (#[trigger] taken@[j] <==> p.contains(j)),
            rest@ == remaining(ts, p, i as nat),
        decreases n - i,
    {
        if !taken[i] {
            rest.push(talks[i].copy());
        }
        i = i + 1;
    }
    proof {
        lemma_split_conserves(ts, p, n as nat);
        assert(ts.take(n as int) =~= ts);
    }
    *talks = rest;
    session
}

} // verus!
