//! The estimate of a sample without censoring: the product-limit curve.

use crate::censoring::surv_result::survival_table;
use crate::censoring::{Surv, INFINITY};
use crate::error::SurvError;
use crate::grid::{
    grid_of, is_event_grid, is_event_grid_before, is_event_time_before, lemma_grid_ends_at_infinity,
    lemma_grid_grows, lemma_grid_of_none, lemma_grid_unique, lemma_insert_in_order, lemma_place,
    strictly_increasing,
};
use crate::kaplan_meier::{
    cell, column_mass, column_masses, compatibility, cumulative, density_of, em_iterate, em_step,
    estimate, has_degenerate, has_invalid, mass_to, next_density, row_mass, share,
    squared_distance, squared_gap, total_mass, uniform_density, unit_weights, weighted_share,
    within_tolerance, MAX_ITERATIONS, MAX_TOTAL_WEIGHT,
};
use crate::laws::lemma_uniform_positive;
use crate::probability::{lemma_increment_positive, lemma_scaled_part, ONE, TOLERANCE};
use crate::sums::{
    entries, lemma_sum_to_constant, lemma_sum_to_single, lemma_sum_to_telescope,
    lemma_sum_to_zero, sum_to, total,
};
use vstd::prelude::*;

verus! {

/// Every observation is an exact event at a time before `INFINITY`, with its
/// times in order, and no two are at the same time.
pub open spec fn is_uncensored(events: Seq<Surv>) -> bool {
    &&& forall|i: int|
        0 <= i < events.len() ==> {
            &&& (#[trigger] events[i])@.is_exact_event()
            &&& events[i]@.is_valid()
            &&& events[i]@.exit_l < INFINITY
        }
    &&& forall|i: int, j: int|
        0 <= i < j < events.len() ==> (#[trigger] events[i])@.exit_l != (#[trigger] events[j])@.exit_l
}

/// The product-limit density of `n` events at distinct times: the share
/// `1 / n` at each, as the increments of `ONE * j / n`, and nothing at
/// `INFINITY`.
pub open spec fn product_limit_density(n: int) -> Seq<u64> {
    Seq::new(
        (n + 1) as nat,
        |j: int|
            if j < n {
                (ONE * (j + 1) / n - ONE * j / n) as u64
            } else {
                0u64
            },
    )
}

/// The product-limit curve of `n` events at distinct times on the grid `g`:
/// past the event that is number `j` in time, counted from 0, the part
/// `(j + 1) / n` of the sample is gone; past `INFINITY`, all of it.
pub open spec fn product_limit_table(g: Seq<u64>, n: int) -> Seq<(u64, u64, u64)> {
    Seq::new(
        g.len(),
        |j: int|
            (
                g[j],
                if j < n {
                    (ONE - ONE * (j + 1) / n) as u64
                } else {
                    0u64
                },
                0u64,
            ),
    )
}

/// The grid of the first `n` events of an uncensored sample has `n + 1`
/// points.
proof fn lemma_uncensored_grid_before(events: Seq<Surv>, n: int) -> (g: Seq<u64>)
    requires
        is_uncensored(events),
        0 <= n <= events.len(),
    ensures
        is_event_grid_before(g, events, n),
        g.len() == n + 1,
    decreases n,
{
    if n == 0 {
        lemma_grid_of_none(events);
        seq![INFINITY]
    } else {
        let before: Seq<u64> = lemma_uncensored_grid_before(events, n - 1);
        let t: u64 = events[n - 1]@.exit_l;
        if before.contains(t) {
            assert(is_event_time_before(events, n - 1, t));
            let k: int = choose|k: int|
                0 <= k < n - 1 && k < events.len() && (#[trigger] events[k])@.is_exact_event()
                    && events[k]@.exit_l == t;
            assert(events[k]@.exit_l != events[n - 1]@.exit_l);
        }
        let k: int = lemma_place(before, t, 0);
        if k < before.len() {
            assert(before.contains(before[k]));
        }
        lemma_insert_in_order(before, k, t);
        lemma_grid_grows(events, n - 1, before, before.insert(k, t));
        before.insert(k, t)
    }
}

/// The grid of an uncensored sample has one point for each event, and
/// `INFINITY`.
pub proof fn lemma_uncensored_grid(events: Seq<Surv>)
    requires
        is_uncensored(events),
    ensures
        is_event_grid(grid_of(events), events),
        grid_of(events).len() == events.len() + 1,
        grid_of(events).last() == INFINITY,
{
    let g: Seq<u64> = lemma_uncensored_grid_before(events, events.len() as int);
    lemma_grid_unique(g, events);
    lemma_grid_ends_at_infinity(g, events, events.len() as int);
}

/// The row of an exact event admits the grid point at its time and no other:
/// its mass is the density there, and the whole of it is shared to that
/// point.
proof fn lemma_exact_row(events: Seq<Surv>, g: Seq<u64>, d: Seq<u64>, i: int, at: int)
    requires
        strictly_increasing(g),
        d.len() == g.len(),
        0 <= i < events.len(),
        events[i]@.is_exact_event(),
        0 <= at < g.len(),
        g[at] == events[i]@.exit_l,
        d[at] > 0,
    ensures
        row_mass(compatibility(events, g)[i], d) == d[at],
        forall|j: int|
            0 <= j < g.len() ==> #[trigger] share(compatibility(events, g)[i], d, j) == if j == at {
                ONE as int
            } else {
                0
            },
{
    let row: Seq<bool> = compatibility(events, g)[i];
    assert forall|k: int| 0 <= k < g.len() implies #[trigger] row[k] == (k == at) by {
        assert(row[k] == events[i]@.admits(g[k]));
        if k < at {
            assert(g[k] < g[at]);
        }
        if k > at {
            assert(g[at] < g[k]);
        }
    }
    assert forall|k: int| 0 <= k < g.len() && k != at implies #[trigger] cell(row, d)(k) == 0 by {
        assert(row[k] == (k == at));
    }
    assert(row[at] == (at == at));
    lemma_sum_to_single(cell(row, d), g.len() as int, at);
    assert forall|j: int| 0 <= j < g.len() implies #[trigger] share(row, d, j) == if j == at {
        ONE as int
    } else {
        0
    } by {
        assert(row[j] == (j == at));
        if j == at {
            vstd::arithmetic::div_mod::lemma_div_by_multiple(ONE as int, d[at] as int);
            assert(d[at] * ONE == ONE * d[at]);
        }
    }
}

/// What an uncensored sample and a density on its grid must satisfy for a
/// step to be taken: the density is positive at every event.
pub open spec fn is_positive_at_events(events: Seq<Surv>, d: Seq<u64>) -> bool {
    &&& d.len() == events.len() + 1
    &&& forall|j: int| 0 <= j < events.len() ==> #[trigger] d[j] > 0
}

/// The grid point of event `i`.
spec fn point_of(events: Seq<Surv>, g: Seq<u64>, i: int) -> int {
    choose|j: int| 0 <= j < g.len() && g[j] == events[i]@.exit_l
}

/// Each event of an uncensored sample has its grid point, before `INFINITY`.
proof fn lemma_point_of(events: Seq<Surv>, g: Seq<u64>, i: int)
    requires
        is_uncensored(events),
        is_event_grid(g, events),
        g.len() == events.len() + 1,
        0 <= i < events.len(),
    ensures
        0 <= point_of(events, g, i) < events.len(),
        g[point_of(events, g, i)] == events[i]@.exit_l,
{
    let t: u64 = events[i]@.exit_l;
    assert(is_event_time_before(events, events.len() as int, t));
    assert(g.contains(t));
    lemma_grid_ends_at_infinity(g, events, events.len() as int);
}

/// In an uncensored sample with unit weights, each column of an event
/// receives one whole observation, and the column of `INFINITY` nothing.
proof fn lemma_uncensored_column(events: Seq<Surv>, g: Seq<u64>, d: Seq<u64>, j: int)
    requires
        is_uncensored(events),
        is_event_grid(g, events),
        g.len() == events.len() + 1,
        is_positive_at_events(events, d),
        0 <= j <= events.len(),
    ensures
        column_mass(compatibility(events, g), unit_weights(events.len()), d, j) == if j
            < events.len() {
            ONE as int
        } else {
            0
        },
{
    let n: int = events.len() as int;
    let m = compatibility(events, g);
    let w = unit_weights(events.len());
    let f = weighted_share(m, w, d, j);
    assert forall|i: int| 0 <= i < n implies #[trigger] f(i) == if j == point_of(events, g, i) {
        ONE as int
    } else {
        0
    } by {
        lemma_point_of(events, g, i);
        lemma_exact_row(events, g, d, i, point_of(events, g, i));
        assert(w[i] == 1);
        assert(f(i) == w[i] * share(m[i], d, j));
    }
    if j == n {
        assert forall|i: int| 0 <= i < n implies #[trigger] f(i) == 0 by {
            lemma_point_of(events, g, i);
        }
        lemma_sum_to_zero(f, n);
    } else {
        lemma_grid_ends_at_infinity(g, events, n);
        assert(g[j] < g[n]);
        assert(g.contains(g[j]));
        assert(is_event_time_before(events, n, g[j]));
        let i0: int = choose|i: int|
            0 <= i < n && i < events.len() && (#[trigger] events[i])@.is_exact_event()
                && events[i]@.exit_l == g[j];
        lemma_point_of(events, g, i0);
        assert(point_of(events, g, i0) == j) by {
            let c: int = point_of(events, g, i0);
            if c < j {
                assert(g[c] < g[j]);
            }
            if j < c {
                assert(g[j] < g[c]);
            }
        }
        assert forall|i: int| 0 <= i < n && i != i0 implies #[trigger] f(i) == 0 by {
            lemma_point_of(events, g, i);
            if i < i0 {
                assert(events[i]@.exit_l != events[i0]@.exit_l);
            } else {
                assert(events[i0]@.exit_l != events[i]@.exit_l);
            }
        }
        lemma_sum_to_single(f, n, i0);
    }
}

/// One step on an uncensored sample with unit weights, from any density that
/// is positive at every event, gives the product-limit density.
pub proof fn lemma_uncensored_step(events: Seq<Surv>, d: Seq<u64>)
    requires
        is_uncensored(events),
        events.len() > 0,
        is_positive_at_events(events, d),
    ensures
        em_step(compatibility(events, grid_of(events)), unit_weights(events.len()), d) == Ok::<
            Seq<u64>,
            SurvError,
        >(product_limit_density(events.len() as int)),
{
    let n: int = events.len() as int;
    let g = grid_of(events);
    lemma_uncensored_grid(events);
    let m = compatibility(events, g);
    let w = unit_weights(events.len());
    assert forall|i: int| 0 <= i < m.len() implies row_mass(#[trigger] m[i], d) > 0 by {
        lemma_point_of(events, g, i);
        lemma_exact_row(events, g, d, i, point_of(events, g, i));
    }
    assert(!has_degenerate(m, d));
    assert forall|j: int| 0 <= j < n implies #[trigger] column_masses(m, w, d)(j) == ONE by {
        lemma_uncensored_column(events, g, d, j);
    }
    lemma_uncensored_column(events, g, d, n);
    assert forall|k: int| 0 <= k <= n implies #[trigger] mass_to(m, w, d, k) == k * ONE by {
        lemma_sum_to_constant(column_masses(m, w, d), ONE as int, k);
    }
    assert(mass_to(m, w, d, n + 1) == mass_to(m, w, d, n) + column_masses(m, w, d)(n));
    assert(total_mass(m, w, d) == n * ONE);
    assert forall|k: int| 0 <= k <= n implies #[trigger] cumulative(m, w, d, k) == ONE * k / n by {
        assert(mass_to(m, w, d, k) == k * ONE);
        assert(ONE * (k * ONE) == ONE * (ONE * k)) by (nonlinear_arith);
        assert(n * ONE == ONE * n);
        vstd::arithmetic::div_mod::lemma_div_multiples_vanish_quotient(ONE as int, ONE * k, n);
    }
    assert(cumulative(m, w, d, n + 1) == cumulative(m, w, d, n));
    let next = next_density(m, w, d);
    let limit = product_limit_density(n);
    assert forall|j: int| 0 <= j < n + 1 implies next[j] == limit[j] by {
        assert(cumulative(m, w, d, j) == ONE * j / n);
        if j < n {
            assert(cumulative(m, w, d, j + 1) == ONE * (j + 1) / n);
        }
    }
    assert(next =~= limit);
}

/// The product-limit density of no more than `ONE` events is positive at
/// each event, and its first `k` entries add up to `ONE * k / n`.
pub proof fn lemma_product_limit_density(events: Seq<Surv>, k: int)
    requires
        0 < events.len() <= ONE,
        0 <= k <= events.len(),
    ensures
        is_positive_at_events(events, product_limit_density(events.len() as int)),
        sum_to(entries(product_limit_density(events.len() as int)), k) == ONE * k / (
        events.len() as int),
        total(product_limit_density(events.len() as int)) == ONE,
{
    let n: int = events.len() as int;
    let limit = product_limit_density(n);
    let reached = |j: int| ONE * j / n;
    assert forall|j: int| 0 <= j < n implies #[trigger] limit[j] > 0 by {
        lemma_increment_positive(n, j);
    }
    assert forall|j: int| 0 <= j < n implies #[trigger] entries(limit)(j) == reached(j + 1)
        - reached(j) by {
        lemma_increment_positive(n, j);
    }
    lemma_sum_to_telescope(entries(limit), reached, k);
    lemma_sum_to_telescope(entries(limit), reached, n);
    lemma_scaled_part(n, n, n);
    assert(entries(limit)(n) == 0);
    assert(sum_to(entries(limit), n + 1) == sum_to(entries(limit), n) + entries(limit)(n));
}

/// For a sample of fewer than `ONE` exact events at distinct times, without
/// weights, the estimate is the product-limit curve.
/// The grid holds the event times in order and then `INFINITY`; past the
/// event that is number `j` in time, counted from 0, the survival
/// probability is `ONE - ONE * (j + 1) / n`, and past `INFINITY` it is 0.
pub proof fn lemma_no_censoring(events: Seq<Surv>)
    requires
        is_uncensored(events),
        0 < events.len() < ONE,
    ensures
        grid_of(events).len() == events.len() + 1,
        density_of(events, None) == Ok::<Seq<u64>, SurvError>(
            product_limit_density(events.len() as int),
        ),
        estimate(events, None) == Ok::<Seq<(u64, u64, u64)>, SurvError>(
            product_limit_table(grid_of(events), events.len() as int),
        ),
{
    let n: int = events.len() as int;
    let g = grid_of(events);
    let m = compatibility(events, g);
    let w = unit_weights(events.len());
    let limit = product_limit_density(n);
    let start = uniform_density(g.len());
    lemma_uncensored_grid(events);
    assert(!has_invalid(events));
    lemma_sum_to_constant(entries(w), 1, n);
    assert(total(w) <= MAX_TOTAL_WEIGHT);
    assert(is_positive_at_events(events, start)) by {
        assert forall|j: int| 0 <= j < n implies #[trigger] start[j] > 0 by {
            lemma_uniform_positive(g.len(), j);
        }
    }
    lemma_uncensored_step(events, start);
    lemma_product_limit_density(events, n);
    lemma_uncensored_step(events, limit);
    assert(within_tolerance(limit, limit)) by {
        assert forall|k: int| 0 <= k < limit.len() implies #[trigger] squared_gap(limit, limit)(k)
            == 0 by {}
        lemma_sum_to_zero(squared_gap(limit, limit), limit.len() as int);
        assert(squared_distance(limit, limit) == 0);
        assert(TOLERANCE * TOLERANCE > 0);
    }
    assert(em_iterate(m, w, start, MAX_ITERATIONS as nat) == Ok::<Seq<u64>, SurvError>(limit))
        by {
        reveal_with_fuel(em_iterate, 3);
    }
    let table = survival_table(g, limit);
    let curve = product_limit_table(g, n);
    assert forall|j: int| 0 <= j < g.len() implies table[j] == curve[j] by {
        if j < n {
            lemma_product_limit_density(events, j + 1);
        } else {
            assert(sum_to(entries(limit), n + 1) == total(limit));
        }
    }
    assert(table =~= curve);
}

} // verus!
