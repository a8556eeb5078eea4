//! Where the iteration keeps mass on what each observation admits.

use crate::censoring::Surv;
use crate::error::SurvError;
use crate::grid::{grid_of, lemma_grid_exists, lemma_place, strictly_increasing};
use crate::kaplan_meier::{
    cell, column_mass, column_masses, compatibility, cumulative, density_of, em_iterate, em_step,
    has_degenerate, has_invalid, mass_to, next_density, row_mass, share, total_mass,
    uniform_density, weighted_share, weights_or_unit, within_tolerance, MAX_ITERATIONS,
};
use crate::laws::{
    admits_none, lemma_cumulative_grows, lemma_degenerate_sample, lemma_mass_grows,
    lemma_share_not_negative, lemma_sound_sample, lemma_step_is_density,
    lemma_uniform_is_density,
};
use crate::probability::{lemma_floor_of_difference, lemma_floor_times, ONE};
use crate::sums::{
    entries, lemma_sum_to_add, lemma_sum_to_grows, lemma_sum_to_le, lemma_sum_to_scaled,
    lemma_sum_to_telescope, lemma_sum_to_term, lemma_sum_to_zero, lemma_sum_to_zero_tail, sum_to,
    total,
};
use vstd::prelude::*;

verus! {

/// The row admits the grid points from `a` up to `b`, not `b` itself, and no
/// others; there is at least one.
pub open spec fn is_run(row: Seq<bool>, p: int, a: int, b: int) -> bool {
    &&& 0 <= a < b <= p
    &&& forall|j: int| 0 <= j < p ==> (#[trigger] row[j] <==> a <= j < b)
}

/// The shares of one observation.
pub open spec fn shares(row: Seq<bool>, d: Seq<u64>) -> spec_fn(int) -> int {
    |j: int| share(row, d, j)
}

/// What an observation is allotted in the first `k` columns, all told, times
/// its weight.
pub open spec fn weighted_allotment(m: Seq<Seq<bool>>, w: Seq<u64>, d: Seq<u64>, k: int) -> spec_fn(
    int,
) -> int {
    |i: int| w[i] * sum_to(shares(m[i], d), k)
}

/// The mass of the first `k` points that a run admits is the density from the
/// start of the run up to `k`.
proof fn lemma_run_mass_to(row: Seq<bool>, d: Seq<u64>, a: int, b: int, k: int)
    requires
        is_run(row, d.len() as int, a, b),
        0 <= k <= d.len(),
    ensures
        sum_to(cell(row, d), k) == sum_to(entries(d), if k < b { k } else { b }) - sum_to(
            entries(d),
            if k < a { k } else { a },
        ),
    decreases k,
{
    if k > 0 {
        lemma_run_mass_to(row, d, a, b, k - 1);
        assert(row[k - 1] <==> a <= k - 1 < b);
    }
}

/// The mass of a run is the density from its start to its end.
pub proof fn lemma_run_mass(row: Seq<bool>, d: Seq<u64>, a: int, b: int)
    requires
        is_run(row, d.len() as int, a, b),
    ensures
        row_mass(row, d) == sum_to(entries(d), b) - sum_to(entries(d), a),
{
    lemma_run_mass_to(row, d, a, b, d.len() as int);
}

/// The density after a step, added up over its first `k` points, is the new
/// cumulative distribution at `k`.
pub proof fn lemma_next_reaches(m: Seq<Seq<bool>>, w: Seq<u64>, d: Seq<u64>, k: int)
    requires
        em_step(m, w, d) is Ok,
        0 <= k <= d.len(),
    ensures
        sum_to(entries(next_density(m, w, d)), k) == cumulative(m, w, d, k),
{
    let next = next_density(m, w, d);
    let reached = |j: int| cumulative(m, w, d, j);
    lemma_mass_grows(m, w, d, d.len() as int, d.len() as int);
    assert forall|j: int| 0 <= j < k implies #[trigger] entries(next)(j) == reached(j + 1)
        - reached(j) by {
        lemma_cumulative_grows(m, w, d, j, j + 1);
    }
    lemma_sum_to_telescope(entries(next), reached, k);
    lemma_cumulative_grows(m, w, d, 0, 0);
}

/// What a row with mass is allotted in its first `k` columns: times the
/// row's mass, it is no more than `ONE` times the mass of those columns, and
/// falls short of it by less than the row's mass for each column.
proof fn lemma_allotment_to(row: Seq<bool>, d: Seq<u64>, k: int)
    requires
        row_mass(row, d) > 0,
        0 <= k <= d.len(),
    ensures
        0 <= sum_to(shares(row, d), k),
        sum_to(shares(row, d), k) * row_mass(row, d) <= ONE * sum_to(cell(row, d), k),
        ONE * sum_to(cell(row, d), k) - k * (row_mass(row, d) - 1) <= sum_to(shares(row, d), k)
            * row_mass(row, d),
    decreases k,
{
    let mass: int = row_mass(row, d);
    if k > 0 {
        lemma_allotment_to(row, d, k - 1);
        let before: int = sum_to(shares(row, d), k - 1);
        let s: int = share(row, d, k - 1);
        let c: int = cell(row, d)(k - 1);
        assert(shares(row, d)(k - 1) == s);
        lemma_share_not_negative(row, d, k - 1);
        assert((before + s) * mass == before * mass + s * mass) by (nonlinear_arith);
        assert(k * (mass - 1) == (k - 1) * (mass - 1) + (mass - 1)) by (nonlinear_arith);
        if row[k - 1] {
            lemma_floor_times(c * ONE, mass);
            vstd::arithmetic::div_mod::lemma_fundamental_div_mod(c * ONE, mass);
            vstd::arithmetic::div_mod::lemma_mod_bound(c * ONE, mass);
            assert(mass * s == s * mass) by (nonlinear_arith);
            assert(s * mass <= ONE * c);
            assert(ONE * c - (mass - 1) <= s * mass);
        } else {
            assert(s * mass == 0) by (nonlinear_arith)
                requires
                    s == 0,
            ;
        }
    } else {
        assert(0 * mass == 0);
        assert(0 * (mass - 1) == 0);
    }
}

/// A row with mass is allotted no more than `ONE` in all, and more than
/// `ONE` less the number of grid points.
pub proof fn lemma_allotment(row: Seq<bool>, d: Seq<u64>)
    requires
        row_mass(row, d) > 0,
    ensures
        ONE - d.len() < sum_to(shares(row, d), d.len() as int) <= ONE,
{
    let mass: int = row_mass(row, d);
    let p: int = d.len() as int;
    let given: int = sum_to(shares(row, d), p);
    lemma_allotment_to(row, d, p);
    assert(given <= ONE) by (nonlinear_arith)
        requires
            given * mass <= ONE * mass,
            mass > 0,
    ;
    assert(p >= 1);
    let over: int = given - ONE + p;
    assert(over * mass == given * mass - ONE * mass + p * mass) by (nonlinear_arith)
        requires
            over == given - ONE + p,
    ;
    assert(p * (mass - 1) == p * mass - p) by (nonlinear_arith);
    assert(over > 0) by (nonlinear_arith)
        requires
            over * mass >= 1,
            mass > 0,
    ;
}

/// The column sums, added up over the first `k` columns, are what the
/// observations are allotted there, each times its weight.
pub proof fn lemma_mass_by_rows(m: Seq<Seq<bool>>, w: Seq<u64>, d: Seq<u64>, k: int)
    requires
        0 <= k,
    ensures
        mass_to(m, w, d, k) == sum_to(weighted_allotment(m, w, d, k), m.len() as int),
    decreases k,
{
    let n: int = m.len() as int;
    if k > 0 {
        lemma_mass_by_rows(m, w, d, k - 1);
        assert forall|i: int| 0 <= i < n implies #[trigger] weighted_allotment(m, w, d, k)(i)
            == weighted_allotment(m, w, d, k - 1)(i) + weighted_share(m, w, d, k - 1)(i) by {
            let wi: int = w[i] as int;
            let before: int = sum_to(shares(m[i], d), k - 1);
            let s: int = share(m[i], d, k - 1);
            assert(shares(m[i], d)(k - 1) == s);
            assert(wi * (before + s) == wi * before + wi * s) by (nonlinear_arith);
        }
        lemma_sum_to_add(
            weighted_allotment(m, w, d, k - 1),
            weighted_share(m, w, d, k - 1),
            weighted_allotment(m, w, d, k),
            n,
        );
        assert(column_masses(m, w, d)(k - 1) == column_mass(m, w, d, k - 1));
    } else {
        assert forall|i: int| 0 <= i < n implies #[trigger] weighted_allotment(m, w, d, 0)(i)
            == 0 by {
            let wi: int = w[i] as int;
            assert(wi * 0 == 0);
        }
        lemma_sum_to_zero(weighted_allotment(m, w, d, 0), n);
    }
}

/// The column sums add up to no more than the weights times `ONE`.
pub proof fn lemma_total_mass_bound(m: Seq<Seq<bool>>, w: Seq<u64>, d: Seq<u64>)
    requires
        m.len() == w.len(),
        !has_degenerate(m, d),
    ensures
        total_mass(m, w, d) <= total(w) * ONE,
{
    let n: int = m.len() as int;
    let p: int = d.len() as int;
    lemma_mass_by_rows(m, w, d, p);
    let full = |i: int| w[i] * ONE;
    assert forall|i: int| 0 <= i < n implies #[trigger] weighted_allotment(m, w, d, p)(i) <= full(
        i,
    ) by {
        lemma_sum_to_grows(cell(m[i], d), p, p);
        assert(row_mass(m[i], d) > 0);
        lemma_allotment(m[i], d);
        let wi: int = w[i] as int;
        let given: int = sum_to(shares(m[i], d), p);
        assert(wi * given <= wi * ONE) by (nonlinear_arith)
            requires
                0 <= wi,
                given <= ONE,
        ;
    }
    lemma_sum_to_le(weighted_allotment(m, w, d, p), full, n);
    assert forall|i: int| 0 <= i < n implies #[trigger] full(i) == ONE * entries(w)(i) by {}
    lemma_sum_to_scaled(entries(w), full, ONE as int, n);
}

/// The columns of a run receive at least what the row itself is allotted,
/// times its weight.
proof fn lemma_run_receives(m: Seq<Seq<bool>>, w: Seq<u64>, d: Seq<u64>, i: int, a: int, b: int)
    requires
        m.len() == w.len(),
        0 <= i < m.len(),
        !has_degenerate(m, d),
        is_run(m[i], d.len() as int, a, b),
    ensures
        w[i] * sum_to(shares(m[i], d), d.len() as int) <= mass_to(m, w, d, b) - mass_to(
            m,
            w,
            d,
            a,
        ),
{
    let n: int = m.len() as int;
    let p: int = d.len() as int;
    let upto_a = weighted_allotment(m, w, d, a);
    let upto_b = weighted_allotment(m, w, d, b);
    let between = |r: int| upto_b(r) - upto_a(r);
    lemma_mass_by_rows(m, w, d, a);
    lemma_mass_by_rows(m, w, d, b);
    lemma_sum_to_add(upto_a, between, upto_b, n);
    assert forall|r: int| 0 <= r < n implies 0 <= #[trigger] between(r) by {
        lemma_sum_to_grows(cell(m[r], d), p, p);
        assert(row_mass(m[r], d) > 0);
        assert forall|j: int| 0 <= j < b implies 0 <= #[trigger] shares(m[r], d)(j) by {
            lemma_share_not_negative(m[r], d, j);
        }
        lemma_sum_to_grows(shares(m[r], d), a, b);
        let wr: int = w[r] as int;
        let sa: int = sum_to(shares(m[r], d), a);
        let sb: int = sum_to(shares(m[r], d), b);
        assert(wr * sa <= wr * sb) by (nonlinear_arith)
            requires
                0 <= wr,
                sa <= sb,
        ;
    }
    lemma_sum_to_term(between, n, i);
    assert forall|j: int| 0 <= j < a implies #[trigger] shares(m[i], d)(j) == 0 by {
        assert(m[i][j] <==> a <= j < b);
    }
    lemma_sum_to_zero(shares(m[i], d), a);
    assert forall|j: int| b <= j < p implies #[trigger] shares(m[i], d)(j) == 0 by {
        assert(m[i][j] <==> a <= j < b);
    }
    lemma_sum_to_zero_tail(shares(m[i], d), b, p);
    let wi: int = w[i] as int;
    assert(wi * 0 == 0);
}

/// Where an observation with positive weight admits a run of grid points,
/// and the weights and the grid points together number no more than `ONE`,
/// the density after a step gives the run at least one unit.
pub proof fn lemma_run_keeps_mass(
    m: Seq<Seq<bool>>,
    w: Seq<u64>,
    d: Seq<u64>,
    i: int,
    a: int,
    b: int,
)
    requires
        m.len() == w.len(),
        0 <= i < m.len(),
        em_step(m, w, d) is Ok,
        is_run(m[i], d.len() as int, a, b),
        w[i] >= 1,
        total(w) + d.len() <= ONE,
    ensures
        row_mass(m[i], next_density(m, w, d)) >= 1,
{
    let p: int = d.len() as int;
    let next = next_density(m, w, d);
    let whole: int = total_mass(m, w, d);
    let sa: int = mass_to(m, w, d, a);
    let sb: int = mass_to(m, w, d, b);
    let given: int = sum_to(shares(m[i], d), p);
    let wi: int = w[i] as int;
    lemma_run_mass(m[i], next, a, b);
    lemma_next_reaches(m, w, d, a);
    lemma_next_reaches(m, w, d, b);
    lemma_mass_grows(m, w, d, a, b);
    lemma_mass_grows(m, w, d, p, p);
    lemma_floor_of_difference(ONE * sb, ONE * sa, whole);
    lemma_run_receives(m, w, d, i, a, b);
    lemma_sum_to_grows(cell(m[i], d), p, p);
    assert(row_mass(m[i], d) > 0);
    lemma_allotment(m[i], d);
    lemma_total_mass_bound(m, w, d);
    let sum: int = total(w);
    assert(sum * ONE <= (ONE - p) * ONE) by (nonlinear_arith)
        requires
            sum <= ONE - p,
    ;
    assert((ONE - p) * ONE <= ONE * given) by (nonlinear_arith)
        requires
            ONE - p <= given,
    ;
    assert(ONE * given <= ONE * (wi * given)) by (nonlinear_arith)
        requires
            wi >= 1,
            given >= 0,
    ;
    assert(whole <= ONE * sb - ONE * sa);
    vstd::arithmetic::div_mod::lemma_div_is_ordered(whole, ONE * sb - ONE * sa, whole);
    vstd::arithmetic::div_mod::lemma_div_by_self(whole);
}

/// The row admits a run of grid points, and no others.
pub open spec fn has_run(row: Seq<bool>, p: int) -> bool {
    exists|a: int, b: int| is_run(row, p, a, b)
}

/// Every row admits a run of grid points.
pub open spec fn all_runs(m: Seq<Seq<bool>>, p: int) -> bool {
    forall|i: int| 0 <= i < m.len() ==> has_run(#[trigger] m[i], p)
}

/// Every weight is positive.
pub open spec fn all_positive(w: Seq<u64>) -> bool {
    forall|i: int| 0 <= i < w.len() ==> #[trigger] w[i] >= 1
}

/// The iteration ended for a row without mass.
pub open spec fn is_degenerate_error(r: Result<Seq<u64>, SurvError>) -> bool {
    r matches Err(SurvError::DegenerateRow { .. })
}

/// Where every row has mass and admits a run, every weight is positive, and
/// the weights and the grid points together number no more than `ONE`, no
/// row is ever found without mass.
pub proof fn lemma_rows_keep_mass(m: Seq<Seq<bool>>, w: Seq<u64>, d: Seq<u64>, fuel: nat)
    requires
        m.len() == w.len(),
        !has_degenerate(m, d),
        all_runs(m, d.len() as int),
        all_positive(w),
        total(w) + d.len() <= ONE,
    ensures
        !is_degenerate_error(em_iterate(m, w, d, fuel)),
    decreases fuel,
{
    if fuel > 0 && em_step(m, w, d) is Ok {
        let next = next_density(m, w, d);
        if !within_tolerance(next, d) {
            assert forall|i: int| 0 <= i < m.len() implies row_mass(#[trigger] m[i], next)
                != 0 by {
                let (a, b) = choose|a: int, b: int| is_run(m[i], d.len() as int, a, b);
                lemma_run_keeps_mass(m, w, d, i, a, b);
            }
            lemma_rows_keep_mass(m, w, next, (fuel - 1) as nat);
        }
    }
}

/// The place after the entries of an increasing sequence that are no more
/// than `t`.
proof fn lemma_place_after(g: Seq<u64>, t: u64, from: int) -> (k: int)
    requires
        0 <= from <= g.len(),
        forall|j: int| 0 <= j < from ==> g[j] <= t,
    ensures
        from <= k <= g.len(),
        forall|j: int| 0 <= j < k ==> g[j] <= t,
        k < g.len() ==> t < g[k],
    decreases g.len() - from,
{
    if from < g.len() && g[from] <= t {
        lemma_place_after(g, t, from + 1)
    } else {
        from
    }
}

/// On an increasing grid, the points that an observation admits are a run,
/// where there are any.
pub proof fn lemma_admits_a_run(events: Seq<Surv>, g: Seq<u64>, i: int)
    requires
        strictly_increasing(g),
        0 <= i < events.len(),
        !admits_none(events[i], g),
    ensures
        has_run(compatibility(events, g)[i], g.len() as int),
{
    let row = compatibility(events, g)[i];
    let s = events[i]@;
    let a: int = lemma_place(g, s.exit_l, 0);
    let b: int = lemma_place_after(g, s.exit_r, 0);
    let j0: int = choose|j: int| 0 <= j < g.len() && s.admits(#[trigger] g[j]);
    assert(a <= j0 < b) by {
        if j0 < a {
            assert(g[j0] < s.exit_l);
        }
        if b <= j0 {
            if b < j0 {
                assert(g[b] < g[j0]);
            }
        }
    }
    assert forall|j: int| 0 <= j < g.len() implies (#[trigger] row[j] <==> a <= j < b) by {
        assert(row[j] == s.admits(g[j]));
        if a < j {
            assert(g[a] < g[j]);
        }
        if b < j {
            assert(g[b] < g[j]);
        }
    }
    assert(is_run(row, g.len() as int, a, b));
}

/// Where the weights are as many as the observations and all positive, the
/// times of each observation are in order, and the weights and the grid
/// points together number no more than `ONE`, a sample is rejected for a row
/// without mass exactly where some observation admits no grid point; and the
/// first observation that admits none is reported.
pub proof fn lemma_degenerate_row(events: Seq<Surv>, weights: Option<Seq<u64>>)
    requires
        events.len() <= usize::MAX,
        weights_or_unit(events.len(), weights).len() == events.len(),
        !has_invalid(events),
        all_positive(weights_or_unit(events.len(), weights)),
        total(weights_or_unit(events.len(), weights)) + grid_of(events).len() <= ONE,
    ensures
        is_degenerate_error(density_of(events, weights)) <==> exists|i: int|
            0 <= i < events.len() && admits_none(#[trigger] events[i], grid_of(events)),
        density_of(events, weights) matches Err(SurvError::DegenerateRow { index }) ==> {
            &&& index < events.len()
            &&& admits_none(events[index as int], grid_of(events))
            &&& forall|k: int|
                0 <= k < index ==> !admits_none(#[trigger] events[k], grid_of(events))
        },
{
    let w = weights_or_unit(events.len(), weights);
    let g = grid_of(events);
    let m = compatibility(events, g);
    let start = uniform_density(g.len());
    lemma_grid_exists(events);
    lemma_sum_to_grows(entries(w), w.len() as int, w.len() as int);
    if exists|i: int| 0 <= i < events.len() && admits_none(#[trigger] events[i], g) {
        let i: int = lemma_first_without_point(events, g, events.len() as int);
        lemma_degenerate_sample(events, weights, i);
        assert(i as usize == i);
    } else {
        crate::grid::lemma_grid_ends_at_infinity(g, events, events.len() as int);
        lemma_sound_sample(events);
        assert forall|i: int| 0 <= i < m.len() implies has_run(#[trigger] m[i], g.len() as int) by {
            assert(!admits_none(events[i], g));
            lemma_admits_a_run(events, g, i);
        }
        lemma_rows_keep_mass(m, w, start, MAX_ITERATIONS as nat);
    }
}

/// The first of the first `n` observations that admits no grid point, where
/// there is one.
proof fn lemma_first_without_point(events: Seq<Surv>, g: Seq<u64>, n: int) -> (i: int)
    requires
        0 <= n <= events.len(),
        exists|k: int| 0 <= k < n && admits_none(#[trigger] events[k], g),
    ensures
        0 <= i < n,
        admits_none(events[i], g),
        forall|k: int| 0 <= k < i ==> !admits_none(#[trigger] events[k], g),
    decreases n,
{
    if exists|k: int| 0 <= k < n - 1 && admits_none(#[trigger] events[k], g) {
        lemma_first_without_point(events, g, n - 1)
    } else {
        let k: int = choose|k: int| 0 <= k < n && admits_none(#[trigger] events[k], g);
        assert(k == n - 1);
        n - 1
    }
}

} // verus!
