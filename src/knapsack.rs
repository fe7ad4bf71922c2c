//! Exact 0/1 knapsack over talks, where a talk's weight and value are both its
//! duration.
use vstd::prelude::*;

use crate::talk::Talk;

verus! {

/// Most time that talks among the first `i` of `ts` can fill within `w` seconds.
pub open spec fn best(ts: Seq<Talk>, i: nat, w: int) -> int
    decreases i,
{
    if i == 0 {
        0
    } else {
        let d = ts[i - 1].duration as int;
        let skip = best(ts, (i - 1) as nat, w);
        if d > w {
            skip
        } else {
            let take = best(ts, (i - 1) as nat, w - d) + d;
            if take > skip {
                take
            } else {
                skip
            }
        }
    }
}

/// The indices that the table walk picks, from the last talk to the first.
pub open spec fn pick(ts: Seq<Talk>, i: nat, w: int) -> Seq<int>
    decreases i,
{
    if i == 0 {
        Seq::empty()
    } else if best(ts, i, w) != best(ts, (i - 1) as nat, w) {
        seq![i - 1] + pick(ts, (i - 1) as nat, w - ts[i - 1].duration)
    } else {
        pick(ts, (i - 1) as nat, w)
    }
}

/// Total duration of `ts`.
pub open spec fn total(ts: Seq<Talk>) -> int
    decreases ts.len(),
{
    if ts.len() == 0 {
        0
    } else {
        ts[0].duration + total(ts.drop_first())
    }
}

/// The talks at the given indices, in that order.
pub open spec fn picked(ts: Seq<Talk>, p: Seq<int>) -> Seq<Talk> {
    p.map_values(|j: int| ts[j])
}

/// Total duration of the talks among the first `i` whose index is in `sel`.
pub open spec fn selected_total(ts: Seq<Talk>, sel: Set<int>, i: nat) -> int
    decreases i,
{
    if i == 0 {
        0
    } else {
        selected_total(ts, sel, (i - 1) as nat) + if sel.contains(i - 1) {
            ts[i - 1].duration as int
        } else {
            0
        }
    }
}

/// Strictly decreasing indices below `n`.
pub open spec fn descending_below(p: Seq<int>, n: int) -> bool {
    &&& forall|k: int| 0 <= k < p.len() ==> 0 <= #[trigger] p[k] < n
    &&& forall|k: int, l: int| 0 <= k < l < p.len() ==> p[k] > p[l]
}

pub proof fn lemma_best_bounds(ts: Seq<Talk>, i: nat, w: int)
    requires
        w >= 0,
    ensures
        0 <= best(ts, i, w) <= w,
    decreases i,
{
    if i > 0 {
        let d = ts[i - 1].duration as int;
        lemma_best_bounds(ts, (i - 1) as nat, w);
        if d <= w {
            lemma_best_bounds(ts, (i - 1) as nat, w - d);
        }
    }
}

proof fn lemma_selected_total_nonneg(ts: Seq<Talk>, sel: Set<int>, i: nat)
    ensures
        selected_total(ts, sel, i) >= 0,
    decreases i,
{
    if i > 0 {
        lemma_selected_total_nonneg(ts, sel, (i - 1) as nat);
    }
}

/// No choice among the first `i` talks that fits in `w` fills more than `best`.
pub proof fn lemma_best_is_upper_bound(ts: Seq<Talk>, sel: Set<int>, i: nat, w: int)
    requires
        selected_total(ts, sel, i) <= w,
    ensures
        selected_total(ts, sel, i) <= best(ts, i, w),
    decreases i,
{
    if i > 0 {
        let d = ts[i - 1].duration as int;
        lemma_selected_total_nonneg(ts, sel, (i - 1) as nat);
        if sel.contains(i - 1) {
            lemma_best_is_upper_bound(ts, sel, (i - 1) as nat, w - d);
        } else {
            lemma_best_is_upper_bound(ts, sel, (i - 1) as nat, w);
        }
    }
}

/// The walk picks distinct talks whose durations add up to `best`.
pub proof fn lemma_pick(ts: Seq<Talk>, i: nat, w: int)
    requires
        w >= 0,
    ensures
        descending_below(pick(ts, i, w), i as int),
        total(picked(ts, pick(ts, i, w))) == best(ts, i, w),
    decreases i,
{
    if i > 0 {
        let d = ts[i - 1].duration as int;
        lemma_best_bounds(ts, (i - 1) as nat, w);
        if best(ts, i, w) != best(ts, (i - 1) as nat, w) {
            let rest = pick(ts, (i - 1) as nat, w - d);
            lemma_pick(ts, (i - 1) as nat, w - d);
            let p = seq![i - 1] + rest;
            assert(picked(ts, p).drop_first() =~= picked(ts, rest));
            assert forall|k: int, l: int| 0 <= k < l < p.len() implies p[k] > p[l] by {
                if k > 0 {
                    assert(p[k] == rest[k - 1]);
                }
                assert(p[l] == rest[l - 1]);
            }
            assert forall|k: int| 0 <= k < p.len() implies 0 <= #[trigger] p[k] < i by {
                if k > 0 {
                    assert(p[k] == rest[k - 1]);
                }
            }
        } else {
            lemma_pick(ts, (i - 1) as nat, w);
        }
    }
}

/// Picks an optimal set of `items` for a session of `max_weight` seconds and
/// returns their indices, the last item first.
pub fn knapsack01_dyn(items: &Vec<Talk>, max_weight: usize) -> (r: Vec<usize>)
    requires
        max_weight < usize::MAX,
    ensures
        r@.map_values(|j: usize| j as int) == pick(items@, items@.len(), max_weight as int),
        descending_below(pick(items@, items@.len(), max_weight as int), items@.len() as int),
        total(picked(items@, pick(items@, items@.len(), max_weight as int))) == best(
            items@,
            items@.len(),
            max_weight as int,
        ),
        best(items@, items@.len(), max_weight as int) <= max_weight,
        forall|sel: Set<int>|
            selected_total(items@, sel, items@.len()) <= max_weight ==> selected_total(
                items@,
                sel,
                items@.len(),
            ) <= best(items@, items@.len(), max_weight as int),
{
    let ghost ts = items@;
    let n = items.len();
    let mut best_value: Vec<Vec<usize>> = Vec::new();
    let mut first: Vec<usize> = Vec::new();
    let mut w: usize = 0;
    while w <= max_weight
        invariant
            w <= max_weight + 1,
            max_weight < usize::MAX,
            first@.len() == w,
            forall|v: int| 0 <= v < w ==> #[trigger] first@[v] == 0,
        decreases max_weight + 1 - w,
    {
        first.push(0);
        w = w + 1;
    }
    best_value.push(first);
    let mut i: usize = 0;
    while i < n
        invariant
            ts == items@,
            n == ts.len(),
            i <= n,
            max_weight < usize::MAX,
            best_value@.len() == i + 1,
            forall|r: int| 0 <= r <= i ==> (#[trigger] best_value@[r])@.len() == max_weight + 1,
            forall|r: int, v: int|
                0 <= r <= i && 0 <= v <= max_weight ==> #[trigger] best_value@[r]@[v] == best(
                    ts,
                    r as nat,
                    v,
                ),
        decreases n - i,
    {
        let it = &items[i];
        let mut row: Vec<usize> = Vec::new();
        let mut w: usize = 0;
        while w <= max_weight
            invariant
                ts == items@,
                n == ts.len(),
                i < n,
                it == ts[i as int],
                max_weight < usize::MAX,
                best_value@.len() == i + 1,
                best_value@[i as int]@.len() == max_weight + 1,
                forall|v: int|
                    0 <= v <= max_weight ==> best_value@[i as int]@[v] == best(ts, i as nat, v),
                w <= max_weight + 1,
                row@.len() == w,
                forall|v: int| 0 <= v < w ==> #[trigger] row@[v] == best(ts, (i + 1) as nat, v),
            decreases max_weight + 1 - w,
        {
            let prev = &best_value[i];
            let skip = prev[w];
            proof {
                lemma_best_bounds(ts, i as nat, w as int);
            }
            let cell = if it.weight() > w as u64 {
                skip
            } else {
                let d = it.value() as usize;
                proof {
                    lemma_best_bounds(ts, i as nat, w - d);
                }
                let take = prev[w - d] + d;
                if take > skip {
                    take
                } else {
                    skip
                }
            };
            row.push(cell);
            w = w + 1;
        }
        best_value.push(row);
        i = i + 1;
    }

    let mut result: Vec<usize> = Vec::new();
    let mut left_weight: usize = max_weight;
    let mut i: usize = n;
    while i > 0
        invariant
            ts == items@,
            n == ts.len(),
            i <= n,
            left_weight <= max_weight,
            best_value@.len() == n + 1,
            forall|r: int| 0 <= r <= n ==> (#[trigger] best_value@[r])@.len() == max_weight + 1,
            forall|r: int, v: int|
                0 <= r <= n && 0 <= v <= max_weight ==> #[trigger] best_value@[r]@[v] == best(
                    ts,
                    r as nat,
                    v,
                ),
            pick(ts, n as nat, max_weight as int) == result@.map_values(|j: usize| j as int)
                + pick(ts, i as nat, left_weight as int),
        decreases i,
    {
        i = i - 1;
        let ghost before = result@;
        if best_value[i + 1][left_weight] != best_value[i][left_weight] {
            result.push(i);
            left_weight = left_weight - items[i].weight() as usize;
            proof {
                assert(result@.map_values(|j: usize| j as int) =~= before.map_values(
                    |j: usize| j as int,
                ) + seq![i as int]);
            }
        }
    }
    proof {
        assert(result@.map_values(|j: usize| j as int) =~= result@.map_values(|j: usize| j as int)
            + pick(ts, 0, left_weight as int));
        lemma_pick(ts, n as nat, max_weight as int);
        lemma_best_bounds(ts, n as nat, max_weight as int);
        assert forall|sel: Set<int>|
            selected_total(ts, sel, n as nat) <= max_weight implies selected_total(
                ts,
                sel,
                n as nat,
            ) <= best(ts, n as nat, max_weight as int) by {
            lemma_best_is_upper_bound(ts, sel, n as nat, max_weight as int);
        }
    }
    result
}

} // verus!
