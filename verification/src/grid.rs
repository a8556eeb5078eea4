//! The time grid: the support of the estimated density.

use crate::censoring::{Surv, INFINITY};
use vstd::prelude::*;

verus! {

/// Some observation among the first `n` is an exact event at time `t`.
pub open spec fn is_event_time_before(events: Seq<Surv>, n: int, t: u64) -> bool {
    exists|i: int|
        0 <= i < n && i < events.len() && (#[trigger] events[i])@.is_exact_event()
            && events[i]@.exit_l == t
}

/// Every entry is less than the entries after it.
pub open spec fn strictly_increasing(g: Seq<u64>) -> bool {
    forall|i: int, j: int| 0 <= i < j < g.len() ==> g[i] < g[j]
}

/// `g` lists, in increasing order and once each, `INFINITY` and the times of
/// the exact events among the first `n` observations.
pub open spec fn is_event_grid_before(g: Seq<u64>, events: Seq<Surv>, n: int) -> bool {
    &&& strictly_increasing(g)
    &&& forall|t: u64| #[trigger]
        g.contains(t) <==> (t == INFINITY || is_event_time_before(events, n, t))
}

/// `g` is the time grid of `events`: in increasing order and once each, the
/// times of the exact events, and `INFINITY` as the last point.
pub open spec fn is_event_grid(g: Seq<u64>, events: Seq<Surv>) -> bool {
    is_event_grid_before(g, events, events.len() as int)
}

/// The time grid of `events`.
pub open spec fn grid_of(events: Seq<Surv>) -> Seq<u64> {
    choose|g: Seq<u64>| is_event_grid(g, events)
}

/// Two increasing sequences with the same entries are the same sequence.
pub proof fn lemma_increasing_unique(a: Seq<u64>, b: Seq<u64>)
    requires
        strictly_increasing(a),
        strictly_increasing(b),
        forall|t: u64| #[trigger] a.contains(t) <==> b.contains(t),
    ensures
        a == b,
    decreases a.len(),
{
    if a.len() == 0 {
        if b.len() > 0 {
            assert(b.contains(b[0]));
            assert(a.contains(b[0]));
        }
        assert(a =~= b);
    } else {
        assert(a.contains(a.last()));
        assert(b.contains(a.last()));
        let x: u64 = a.last();
        let y: u64 = b.last();
        assert(b.contains(y));
        assert(a.contains(y));
        let kb: int = choose|k: int| 0 <= k < b.len() && b[k] == x;
        let ka: int = choose|k: int| 0 <= k < a.len() && a[k] == y;
        assert(x == y);
        let a0: Seq<u64> = a.drop_last();
        let b0: Seq<u64> = b.drop_last();
        assert forall|t: u64| #[trigger] a0.contains(t) <==> b0.contains(t) by {
            if a0.contains(t) {
                let k: int = choose|k: int| 0 <= k < a0.len() && a0[k] == t;
                assert(a[k] == t);
                assert(a.contains(t));
                assert(t < x);
                let j: int = choose|j: int| 0 <= j < b.len() && b[j] == t;
                assert(j < b.len() - 1);
                assert(b0[j] == t);
            }
            if b0.contains(t) {
                let k: int = choose|k: int| 0 <= k < b0.len() && b0[k] == t;
                assert(b[k] == t);
                assert(b.contains(t));
                assert(a.contains(t));
                assert(t < y);
                let j: int = choose|j: int| 0 <= j < a.len() && a[j] == t;
                assert(j < a.len() - 1);
                assert(a0[j] == t);
            }
        }
        lemma_increasing_unique(a0, b0);
        assert(a =~= a0.push(x));
        assert(b =~= b0.push(y));
    }
}

/// A set of observations has one time grid only.
pub proof fn lemma_grid_unique(g: Seq<u64>, events: Seq<Surv>)
    requires
        is_event_grid(g, events),
    ensures
        g == grid_of(events),
{
    let h: Seq<u64> = grid_of(events);
    assert(is_event_grid(h, events));
    assert forall|t: u64| #[trigger] g.contains(t) <==> h.contains(t) by {}
    lemma_increasing_unique(g, h);
}

/// A time grid is not empty, and `INFINITY` is its last point.
pub proof fn lemma_grid_ends_at_infinity(g: Seq<u64>, events: Seq<Surv>, n: int)
    requires
        is_event_grid_before(g, events, n),
    ensures
        g.len() >= 1,
        g.last() == INFINITY,
{
    assert(g.contains(INFINITY));
    let k: int = choose|k: int| 0 <= k < g.len() && g[k] == INFINITY;
    if k < g.len() - 1 {
        assert(g[k] < g[g.len() - 1]);
    }
}

/// Putting `t` between the entries below it and the entries above it keeps
/// the order, and adds `t` to the entries and nothing else.
pub proof fn lemma_insert_in_order(before: Seq<u64>, k: int, t: u64)
    requires
        strictly_increasing(before),
        0 <= k <= before.len(),
        forall|j: int| 0 <= j < k ==> before[j] < t,
        k < before.len() ==> t < before[k],
    ensures
        strictly_increasing(before.insert(k, t)),
        forall|u: u64| #[trigger]
            before.insert(k, t).contains(u) <==> (before.contains(u) || u == t),
{
    let after: Seq<u64> = before.insert(k, t);
    assert forall|i: int, j: int| 0 <= i < j < after.len() implies after[i] < after[j] by {
        if i < k && j > k {
            assert(after[i] == before[i]);
            assert(after[j] == before[j - 1]);
        } else if i > k {
            assert(after[i] == before[i - 1]);
            assert(after[j] == before[j - 1]);
        }
    }
    assert forall|u: u64| #[trigger] after.contains(u) <==> (before.contains(u) || u == t) by {
        if after.contains(u) {
            let i: int = choose|i: int| 0 <= i < after.len() && after[i] == u;
            if i < k {
                assert(before[i] == u);
            } else if i > k {
                assert(before[i - 1] == u);
            }
        }
        if before.contains(u) {
            let i: int = choose|i: int| 0 <= i < before.len() && before[i] == u;
            if i < k {
                assert(after[i] == u);
            } else {
                assert(after[i + 1] == u);
            }
        }
        if u == t {
            assert(after[k] == u);
        }
    }
}

/// A grid of the first `n` observations, with the time of observation `n`
/// added where that is an exact event, is a grid of the first `n + 1`.
pub proof fn lemma_grid_grows(events: Seq<Surv>, n: int, before: Seq<u64>, after: Seq<u64>)
    requires
        0 <= n < events.len(),
        is_event_grid_before(before, events, n),
        strictly_increasing(after),
        forall|u: u64| #[trigger]
            after.contains(u) <==> (before.contains(u) || (events[n]@.is_exact_event() && u
                == events[n]@.exit_l)),
    ensures
        is_event_grid_before(after, events, n + 1),
{
    assert forall|u: u64| #[trigger]
        after.contains(u) <==> (u == INFINITY || is_event_time_before(events, n + 1, u)) by {
        if is_event_time_before(events, n + 1, u) {
            let k: int = choose|k: int|
                0 <= k < n + 1 && k < events.len() && (#[trigger] events[k])@.is_exact_event()
                    && events[k]@.exit_l == u;
            if k < n {
                assert(is_event_time_before(events, n, u));
            }
        }
        if is_event_time_before(events, n, u) {
            let k: int = choose|k: int|
                0 <= k < n && k < events.len() && (#[trigger] events[k])@.is_exact_event()
                    && events[k]@.exit_l == u;
            assert(is_event_time_before(events, n + 1, u));
        }
        if events[n]@.is_exact_event() && u == events[n]@.exit_l {
            assert(is_event_time_before(events, n + 1, u));
        }
        assert(before.contains(u) <==> (u == INFINITY || is_event_time_before(events, n, u)));
    }
}

/// The grid of no observations holds `INFINITY` alone.
pub proof fn lemma_grid_of_none(events: Seq<Surv>)
    ensures
        is_event_grid_before(seq![INFINITY], events, 0),
{
    let g: Seq<u64> = seq![INFINITY];
    assert(g[0] == INFINITY);
    assert forall|t: u64| #[trigger]
        g.contains(t) <==> (t == INFINITY || is_event_time_before(events, 0, t)) by {
        if g.contains(t) {
            let k: int = choose|k: int| 0 <= k < g.len() && g[k] == t;
        }
    }
}

/// The place of `t` in an increasing sequence: after the entries that are
/// less than `t`.
pub proof fn lemma_place(g: Seq<u64>, t: u64, from: int) -> (k: int)
    requires
        0 <= from <= g.len(),
        forall|j: int| 0 <= j < from ==> g[j] < t,
    ensures
        from <= k <= g.len(),
        forall|j: int| 0 <= j < k ==> g[j] < t,
        k < g.len() ==> t <= g[k],
    decreases g.len() - from,
{
    if from < g.len() && g[from] < t {
        lemma_place(g, t, from + 1)
    } else {
        from
    }
}

/// The first `n` observations have a time grid.
proof fn lemma_grid_before_exists(events: Seq<Surv>, n: int) -> (g: Seq<u64>)
    requires
        0 <= n <= events.len(),
    ensures
        is_event_grid_before(g, events, n),
    decreases n,
{
    if n == 0 {
        lemma_grid_of_none(events);
        seq![INFINITY]
    } else {
        let before: Seq<u64> = lemma_grid_before_exists(events, n - 1);
        let t: u64 = events[n - 1]@.exit_l;
        if events[n - 1]@.is_exact_event() && !before.contains(t) {
            let k: int = lemma_place(before, t, 0);
            if k < before.len() {
                assert(before.contains(before[k]));
            }
            lemma_insert_in_order(before, k, t);
            lemma_grid_grows(events, n - 1, before, before.insert(k, t));
            before.insert(k, t)
        } else {
            lemma_grid_grows(events, n - 1, before, before);
            before
        }
    }
}

/// Every sample has a time grid, and `grid_of` is it.
pub proof fn lemma_grid_exists(events: Seq<Surv>)
    ensures
        is_event_grid(grid_of(events), events),
{
    let g: Seq<u64> = lemma_grid_before_exists(events, events.len() as int);
    assert(is_event_grid(g, events));
}

/// Puts `t` into an increasing sequence at its place, unless it is there.
fn insert_sorted(grid: &mut Vec<u64>, t: u64)
    requires
        strictly_increasing(old(grid)@),
    ensures
        strictly_increasing(final(grid)@),
        forall|u: u64| #[trigger]
            final(grid)@.contains(u) <==> (old(grid)@.contains(u) || u == t),
{
    let mut k: usize = 0;
    while k < grid.len() && grid[k] < t
        invariant
            k <= grid.len(),
            grid@ == old(grid)@,
            forall|j: int| 0 <= j < k ==> grid[j] < t,
        decreases grid.len() - k,
    {
        k += 1;
    }
    if k < grid.len() && grid[k] == t {
        assert(grid@.contains(t));
        return ;
    }
    proof {
        lemma_insert_in_order(grid@, k as int, t);
    }
    grid.insert(k, t);
}

/// Builds the time grid: the distinct times of the exact events in increasing
/// order, and `INFINITY` after them.
pub fn event_grid(events: &Vec<Surv>) -> (grid: Vec<u64>)
    ensures
        is_event_grid(grid@, events@),
        grid@ == grid_of(events@),
        grid.len() >= 1,
        grid@.last() == INFINITY,
{
    let mut grid: Vec<u64> = Vec::new();
    grid.push(INFINITY);
    proof {
        assert(grid@ =~= seq![INFINITY]);
        lemma_grid_of_none(events@);
    }
    let mut i: usize = 0;
    while i < events.len()
        invariant
            i <= events.len(),
            is_event_grid_before(grid@, events@, i as int),
        decreases events.len() - i,
    {
        let ghost before: Seq<u64> = grid@;
        if events[i].is_exact_event() {
            insert_sorted(&mut grid, events[i].get_exit_l());
        }
        proof {
            lemma_grid_grows(events@, i as int, before, grid@);
        }
        i += 1;
    }
    proof {
        lemma_grid_unique(grid@, events@);
        lemma_grid_ends_at_infinity(grid@, events@, events@.len() as int);
    }
    grid
}

} // verus!
