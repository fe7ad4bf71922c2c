//! What holds of every run: no talk is lost or repeated, every session fits
//! and is filled as far as any choice could fill it, and the printed times
//! follow the talks.
use vstd::prelude::*;

use crate::format::{
    event_line,
    lemma_total_nonneg,
    lemma_total_push,
    session_lines,
    start_of,
    talk_line,
    text,
};
use crate::knapsack::{
    best,
    lemma_best_bounds,
    lemma_best_is_upper_bound,
    lemma_pick,
    pick,
    selected_total,
    total,
};
use crate::pool::{lemma_split_conserves, pool_after, session_of};
use crate::talk::Talk;
use crate::tracks::{
    insert_by_duration,
    pool_after_track,
    run,
    sort_by_duration,
    EVENING_SESSION_MAX_DURATION,
    MORNING_SESSION_DURATION,
};

verus! {

/// The talks that a run from `pool` places, session by session.
pub open spec fn placed(pool: Seq<Talk>) -> Seq<Talk>
    decreases pool.len(),
{
    if pool.len() == 0 {
        Seq::empty()
    } else {
        let rest = pool_after(pool, MORNING_SESSION_DURATION as int);
        let sessions = session_of(pool, MORNING_SESSION_DURATION as int) + session_of(
            rest,
            EVENING_SESSION_MAX_DURATION as int,
        );
        let left = pool_after_track(pool);
        if left.len() < pool.len() && left.len() > 0 {
            sessions + placed(left)
        } else {
            sessions
        }
    }
}

/// A session and the pool left after it hold the talks of the pool before
/// it, each as often as before.
pub proof fn law_session_conserves(pool: Seq<Talk>, cap: int)
    requires
        cap >= 0,
    ensures
        pool.to_multiset() == pool_after(pool, cap).to_multiset().add(
            session_of(pool, cap).to_multiset(),
        ),
{
    lemma_pick(pool, pool.len(), cap);
    lemma_split_conserves(pool, pick(pool, pool.len(), cap), pool.len());
    assert(pool.take(pool.len() as int) =~= pool);
}

/// Placing `t` among talks ordered by duration loses none and adds none.
proof fn lemma_insert_conserves(s: Seq<Talk>, t: Talk)
    ensures
        insert_by_duration(s, t).to_multiset() == s.to_multiset().insert(t),
    decreases s.len(),
{
    broadcast use vstd::seq_lib::group_to_multiset_ensures;

    if s.len() > 0 && s.last().duration > t.duration {
        lemma_insert_conserves(s.drop_last(), t);
        assert(s.drop_last().push(s.last()) =~= s);
        assert(s.drop_last().to_multiset().insert(t).insert(s.last()) =~= s.drop_last().push(
            s.last(),
        ).to_multiset().insert(t));
    }
}

/// Ordering the talks by duration keeps each of them, as often as before.
pub proof fn law_sort_conserves(s: Seq<Talk>)
    ensures
        sort_by_duration(s).to_multiset() == s.to_multiset(),
    decreases s.len(),
{
    broadcast use vstd::seq_lib::group_to_multiset_ensures;

    if s.len() > 0 {
        law_sort_conserves(s.drop_last());
        lemma_insert_conserves(sort_by_duration(s.drop_last()), s.last());
        assert(s.drop_last().push(s.last()) =~= s);
    }
}

/// A run from `pool` that ends with every talk placed places each talk of
/// the pool exactly as often as the pool holds it.
pub proof fn law_run_places_every_talk_once(pool: Seq<Talk>, n: nat)
    requires
        run(pool, n).1 is None,
    ensures
        placed(pool).to_multiset() == pool.to_multiset(),
    decreases pool.len(),
{
    broadcast use vstd::seq_lib::group_to_multiset_ensures;
    broadcast use vstd::seq_lib::lemma_multiset_commutative;

    if pool.len() > 0 {
        let m = MORNING_SESSION_DURATION as int;
        let e = EVENING_SESSION_MAX_DURATION as int;
        let rest = pool_after(pool, m);
        let left = pool_after_track(pool);
        law_session_conserves(pool, m);
        law_session_conserves(rest, e);
        let sessions = session_of(pool, m) + session_of(rest, e);
        if left.len() == 0 {
            assert(left =~= Seq::<Talk>::empty());
            assert(left.to_multiset() =~= vstd::multiset::Multiset::empty());
            assert(placed(pool) == sessions);
            assert(pool.to_multiset() =~= sessions.to_multiset());
        } else {
            law_run_places_every_talk_once(left, n + 1);
            assert(placed(pool) == sessions + placed(left));
            assert(pool.to_multiset() =~= (sessions + placed(left)).to_multiset());
        }
    }
}

/// Reading lines and scheduling them, when it succeeds, places every talk
/// that the lines describe exactly once.
pub proof fn law_conservation(ts: Seq<Talk>)
    requires
        run(sort_by_duration(ts), 1).1 is None,
    ensures
        placed(sort_by_duration(ts)).to_multiset() == ts.to_multiset(),
{
    law_run_places_every_talk_once(sort_by_duration(ts), 1);
    law_sort_conserves(ts);
}

/// A session never runs past its room.
pub proof fn law_session_fits(pool: Seq<Talk>, cap: int)
    requires
        cap >= 0,
    ensures
        total(session_of(pool, cap)) <= cap,
{
    lemma_pick(pool, pool.len(), cap);
    lemma_best_bounds(pool, pool.len(), cap);
}

/// No choice of talks from the pool that fits the room fills more of it than
/// the session does.
pub proof fn law_session_is_optimal(pool: Seq<Talk>, cap: int, sel: Set<int>)
    requires
        cap >= 0,
        selected_total(pool, sel, pool.len()) <= cap,
    ensures
        selected_total(pool, sel, pool.len()) <= total(session_of(pool, cap)),
{
    lemma_pick(pool, pool.len(), cap);
    lemma_best_is_upper_bound(pool, sel, pool.len(), cap);
}

/// Two writings of the same session at the same time give the same text.
pub proof fn law_formatting_is_idempotent(
    at: nat,
    ts: Seq<Talk>,
    event: Seq<char>,
    first: Seq<String>,
    second: Seq<String>,
)
    requires
        text(first) == session_lines(at, ts, event),
        text(second) == session_lines(at, ts, event),
    ensures
        text(first) == text(second),
{
}

/// Each talk of a session starts when the one before it ends, and the event
/// starts when the last talk ends.
pub proof fn law_times_advance(at: nat, ts: Seq<Talk>, event: Seq<char>, k: int)
    requires
        0 <= k < ts.len(),
    ensures
        session_lines(at, ts, event)[k] == talk_line(start_of(at, ts, k), ts[k]),
        start_of(at, ts, k + 1) == start_of(at, ts, k) + ts[k].duration,
        start_of(at, ts, k) <= start_of(at, ts, k + 1),
        session_lines(at, ts, event)[ts.len() as int] == event_line(
            start_of(at, ts, ts.len() as int),
            event,
        ),
{
    assert(ts.take(k + 1) =~= ts.take(k).push(ts[k]));
    lemma_total_push(ts.take(k), ts[k]);
    lemma_total_nonneg(ts.take(k));
    assert(ts.take(ts.len() as int) =~= ts);
}

proof fn lemma_selected_same_members(ts: Seq<Talk>, a: Set<int>, b: Set<int>, i: nat)
    requires
        forall|j: int| 0 <= j < i ==> (a.contains(j) <==> b.contains(j)),
    ensures
        selected_total(ts, a, i) == selected_total(ts, b, i),
    decreases i,
{
    if i > 0 {
        lemma_selected_same_members(ts, a, b, (i - 1) as nat);
    }
}

proof fn lemma_selected_add(ts: Seq<Talk>, a: Set<int>, j: int, i: nat)
    requires
        !a.contains(j),
        0 <= j < i,
    ensures
        selected_total(ts, a.insert(j), i) == selected_total(ts, a, i) + ts[j].duration,
    decreases i,
{
    if j < i - 1 {
        lemma_selected_add(ts, a, j, (i - 1) as nat);
    } else {
        lemma_selected_same_members(ts, a.insert(j), a, (i - 1) as nat);
    }
}

/// The indices that the walk picks, as a set.
pub open spec fn pick_set(ts: Seq<Talk>, i: nat, w: int) -> Set<int> {
    Set::new(|j: int| pick(ts, i, w).contains(j))
}

proof fn lemma_pick_selected(ts: Seq<Talk>, i: nat, w: int)
    requires
        w >= 0,
    ensures
        selected_total(ts, pick_set(ts, i, w), i) == best(ts, i, w),
    decreases i,
{
    if i > 0 {
        let d = ts[i - 1].duration as int;
        let p = pick(ts, i, w);
        lemma_best_bounds(ts, (i - 1) as nat, w);
        if best(ts, i, w) != best(ts, (i - 1) as nat, w) {
            let rest = pick(ts, (i - 1) as nat, w - d);
            lemma_pick(ts, (i - 1) as nat, w - d);
            lemma_pick_selected(ts, (i - 1) as nat, w - d);
            assert forall|j: int| 0 <= j < i - 1 implies (pick_set(ts, i, w).contains(j)
                <==> pick_set(ts, (i - 1) as nat, w - d).contains(j)) by {
                if p.contains(j) {
                    let k = choose|k: int| 0 <= k < p.len() && #[trigger] p[k] == j;
                    assert(k != 0);
                    assert(rest[k - 1] == j);
                }
                if rest.contains(j) {
                    let k = choose|k: int| 0 <= k < rest.len() && #[trigger] rest[k] == j;
                    assert(p[k + 1] == j);
                }
            }
            assert(p[0] == i - 1);
            lemma_selected_same_members(
                ts,
                pick_set(ts, i, w),
                pick_set(ts, (i - 1) as nat, w - d),
                (i - 1) as nat,
            );
        } else {
            let q = pick(ts, (i - 1) as nat, w);
            lemma_pick(ts, (i - 1) as nat, w);
            lemma_pick_selected(ts, (i - 1) as nat, w);
            assert(!q.contains(i - 1)) by {
                if q.contains(i - 1) {
                    let k = choose|k: int| 0 <= k < q.len() && #[trigger] q[k] == i - 1;
                }
            }
            lemma_selected_same_members(
                ts,
                pick_set(ts, i, w),
                pick_set(ts, (i - 1) as nat, w),
                (i - 1) as nat,
            );
        }
    }
}

/// A talk that the session leaves in the pool and that takes any time at all
/// would not have fit beside the talks that the session holds.
pub proof fn law_no_left_talk_fits(pool: Seq<Talk>, cap: int, j: int)
    requires
        cap >= 0,
        0 <= j < pool.len(),
        !pick(pool, pool.len(), cap).contains(j),
        pool[j].duration > 0,
    ensures
        total(session_of(pool, cap)) + pool[j].duration > cap,
{
    let n = pool.len();
    let a = pick_set(pool, n, cap);
    lemma_pick(pool, n, cap);
    lemma_pick_selected(pool, n, cap);
    lemma_selected_add(pool, a, j, n);
    if total(session_of(pool, cap)) + pool[j].duration <= cap {
        lemma_best_is_upper_bound(pool, a.insert(j), n, cap);
    }
}

} // verus!
