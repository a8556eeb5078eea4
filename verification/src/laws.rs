//! What holds of every estimate.

use crate::censoring::surv_result::{is_proper, lemma_survival_non_increasing, non_increasing};
use crate::censoring::{Surv, INFINITY};
use crate::error::SurvError;
use crate::grid::{grid_of, lemma_grid_ends_at_infinity, lemma_grid_exists};
use crate::kaplan_meier::{
    cell, column_mass, column_masses, compatibility, cumulative, density_of, em_iterate, em_step,
    estimate, first_degenerate, has_degenerate, has_invalid, is_first_degenerate, mass_to,
    next_density, row_mass, share, total_mass, uniform_density, unit_weights, weighted_share,
    weights_or_unit, MAX_ITERATIONS, MAX_TOTAL_WEIGHT,
};
use crate::probability::{is_density, lemma_increment_positive, lemma_scaled_part, ONE};
use crate::sums::{
    entries, lemma_sum_to_grows, lemma_sum_to_le, lemma_sum_to_scaled, lemma_sum_to_telescope,
    lemma_sum_to_term, lemma_sum_to_zero, sum_to, total,
};
use vstd::prelude::*;

verus! {

/// A share is not negative where the row has mass.
pub proof fn lemma_share_not_negative(row: Seq<bool>, d: Seq<u64>, j: int)
    requires
        row_mass(row, d) > 0,
    ensures
        0 <= share(row, d, j),
{
    if row[j] {
        vstd::arithmetic::div_mod::lemma_div_pos_is_pos(d[j] * ONE, row_mass(row, d));
    }
}

/// No observation contributes a negative amount to a column.
pub proof fn lemma_contributions_not_negative(
    m: Seq<Seq<bool>>,
    w: Seq<u64>,
    d: Seq<u64>,
    j: int,
)
    requires
        !has_degenerate(m, d),
    ensures
        forall|i: int| 0 <= i < m.len() ==> 0 <= #[trigger] weighted_share(m, w, d, j)(i),
{
    assert forall|i: int| 0 <= i < m.len() implies 0 <= #[trigger] weighted_share(m, w, d, j)(
        i,
    ) by {
        lemma_sum_to_grows(crate::kaplan_meier::cell(m[i], d), d.len() as int, d.len() as int);
        assert(row_mass(m[i], d) > 0);
        lemma_share_not_negative(m[i], d, j);
        let x: int = share(m[i], d, j);
        let wi: int = w[i] as int;
        assert(0 <= wi * x) by (nonlinear_arith)
            requires
                0 <= wi,
                0 <= x,
        ;
    }
}

/// The column sums are not negative, and their running total grows.
pub proof fn lemma_mass_grows(m: Seq<Seq<bool>>, w: Seq<u64>, d: Seq<u64>, a: int, b: int)
    requires
        !has_degenerate(m, d),
        a <= b,
    ensures
        0 <= mass_to(m, w, d, a) <= mass_to(m, w, d, b),
{
    assert forall|j: int| 0 <= #[trigger] column_masses(m, w, d)(j) by {
        lemma_contributions_not_negative(m, w, d, j);
        lemma_sum_to_grows(weighted_share(m, w, d, j), m.len() as int, m.len() as int);
    }
    lemma_sum_to_grows(column_masses(m, w, d), a, b);
}

/// `s` holds the weights `w`, each multiplied by `c`.
pub open spec fn is_scaled(s: Seq<u64>, w: Seq<u64>, c: int) -> bool {
    &&& s.len() == w.len()
    &&& forall|i: int| 0 <= i < w.len() ==> #[trigger] s[i] == c * w[i]
}

/// Multiplying the weights by `c` multiplies the running total of the column
/// sums by `c`.
pub proof fn lemma_scaled_mass(
    m: Seq<Seq<bool>>,
    w: Seq<u64>,
    s: Seq<u64>,
    c: int,
    d: Seq<u64>,
    k: int,
)
    requires
        m.len() == w.len(),
        is_scaled(s, w, c),
    ensures
        mass_to(m, s, d, k) == c * mass_to(m, w, d, k),
{
    assert forall|j: int| 0 <= j < k implies #[trigger] column_masses(m, s, d)(j) == c
        * column_masses(m, w, d)(j) by {
        assert forall|i: int| 0 <= i < m.len() implies #[trigger] weighted_share(m, s, d, j)(i)
            == c * weighted_share(m, w, d, j)(i) by {
            let x: int = share(m[i], d, j);
            let wi: int = w[i] as int;
            let si: int = s[i] as int;
            assert(si * x == c * (wi * x)) by (nonlinear_arith)
                requires
                    si == c * wi,
            ;
        }
        lemma_sum_to_scaled(
            weighted_share(m, w, d, j),
            weighted_share(m, s, d, j),
            c,
            m.len() as int,
        );
    }
    lemma_sum_to_scaled(column_masses(m, w, d), column_masses(m, s, d), c, k);
}

/// Multiplying the weights by a positive constant leaves a step unchanged.
pub proof fn lemma_scaled_step(m: Seq<Seq<bool>>, w: Seq<u64>, s: Seq<u64>, c: int, d: Seq<u64>)
    requires
        m.len() == w.len(),
        is_scaled(s, w, c),
        c > 0,
    ensures
        em_step(m, s, d) == em_step(m, w, d),
{
    if !has_degenerate(m, d) {
        let whole: int = total_mass(m, w, d);
        lemma_scaled_mass(m, w, s, c, d, d.len() as int);
        lemma_mass_grows(m, w, d, d.len() as int, d.len() as int);
        assert(c * whole == 0 <==> whole == 0) by (nonlinear_arith)
            requires
                c > 0,
        ;
        if whole > 0 {
            assert forall|k: int| 0 <= k <= d.len() implies #[trigger] cumulative(m, s, d, k)
                == cumulative(m, w, d, k) by {
                let part: int = mass_to(m, w, d, k);
                lemma_scaled_mass(m, w, s, c, d, k);
                lemma_mass_grows(m, w, d, k, k);
                assert(ONE * (c * part) == c * (ONE * part)) by (nonlinear_arith);
                vstd::arithmetic::div_mod::lemma_div_multiples_vanish_quotient(
                    c,
                    ONE * part,
                    whole,
                );
            }
            assert(next_density(m, s, d) =~= next_density(m, w, d));
        }
    }
}

/// Multiplying the weights by a positive constant leaves the iteration
/// unchanged.
pub proof fn lemma_scaled_iteration(
    m: Seq<Seq<bool>>,
    w: Seq<u64>,
    s: Seq<u64>,
    c: int,
    d: Seq<u64>,
    fuel: nat,
)
    requires
        m.len() == w.len(),
        is_scaled(s, w, c),
        c > 0,
    ensures
        em_iterate(m, s, d, fuel) == em_iterate(m, w, d, fuel),
    decreases fuel,
{
    if fuel > 0 {
        lemma_scaled_step(m, w, s, c, d);
        match em_step(m, w, d) {
            Ok(next) => {
                lemma_scaled_iteration(m, w, s, c, next, (fuel - 1) as nat);
            },
            Err(_) => {},
        }
    }
}

/// Only the proportions of the weights matter: where every weight is
/// multiplied by the same positive constant, and the multiplied weights still
/// add up to no more than `MAX_TOTAL_WEIGHT`, the estimate is the same, be it
/// a table or an error.
pub proof fn lemma_weight_scaling(events: Seq<Surv>, w: Seq<u64>, s: Seq<u64>, c: int)
    requires
        is_scaled(s, w, c),
        c > 0,
        total(s) <= MAX_TOTAL_WEIGHT,
    ensures
        density_of(events, Some(s)) == density_of(events, Some(w)),
        estimate(events, Some(s)) == estimate(events, Some(w)),
{
    if w.len() == events.len() {
        lemma_sum_to_scaled(entries(w), entries(s), c, w.len() as int);
        lemma_sum_to_grows(entries(w), w.len() as int, w.len() as int);
        let sum: int = total(w);
        assert(sum <= c * sum) by (nonlinear_arith)
            requires
                c >= 1,
                sum >= 0,
        ;
        let g = crate::grid::grid_of(events);
        let m = crate::kaplan_meier::compatibility(events, g);
        lemma_scaled_iteration(
            m,
            w,
            s,
            c,
            crate::kaplan_meier::uniform_density(g.len()),
            crate::kaplan_meier::MAX_ITERATIONS as nat,
        );
    }
}

/// Where every observation has the same positive weight `c`, and `c` times
/// their number is no more than `MAX_TOTAL_WEIGHT`, the estimate is that of
/// the sample without weights.
pub proof fn lemma_uniform_weights(events: Seq<Surv>, s: Seq<u64>, c: int)
    requires
        s.len() == events.len(),
        forall|i: int| 0 <= i < s.len() ==> #[trigger] s[i] == c,
        c > 0,
        c * events.len() <= MAX_TOTAL_WEIGHT,
    ensures
        estimate(events, Some(s)) == estimate(events, None),
{
    let w = unit_weights(events.len());
    assert forall|i: int| 0 <= i < w.len() implies #[trigger] s[i] == c * w[i] by {
        assert(w[i] == 1);
    }
    crate::sums::lemma_sum_to_constant(entries(s), c, s.len() as int);
    assert(events.len() * c == c * events.len()) by (nonlinear_arith);
    lemma_weight_scaling(events, w, s, c);
}

/// The cumulative distribution after a step starts at 0, does not fall, and
/// ends at `ONE`.
pub proof fn lemma_cumulative_grows(m: Seq<Seq<bool>>, w: Seq<u64>, d: Seq<u64>, a: int, b: int)
    requires
        !has_degenerate(m, d),
        total_mass(m, w, d) > 0,
        0 <= a <= b <= d.len(),
    ensures
        0 <= cumulative(m, w, d, a) <= cumulative(m, w, d, b) <= ONE,
        cumulative(m, w, d, 0) == 0,
        cumulative(m, w, d, d.len() as int) == ONE,
{
    let whole: int = total_mass(m, w, d);
    lemma_mass_grows(m, w, d, a, b);
    lemma_mass_grows(m, w, d, b, d.len() as int);
    lemma_scaled_part(mass_to(m, w, d, a), mass_to(m, w, d, b), whole);
    lemma_scaled_part(whole, whole, whole);
}

/// The density after a step adds up to `ONE`, whatever the density before
/// it.
pub proof fn lemma_step_is_density(m: Seq<Seq<bool>>, w: Seq<u64>, d: Seq<u64>)
    requires
        em_step(m, w, d) is Ok,
    ensures
        is_density(em_step(m, w, d)->Ok_0),
        em_step(m, w, d)->Ok_0.len() == d.len(),
{
    let next = next_density(m, w, d);
    let reached = |k: int| cumulative(m, w, d, k);
    lemma_mass_grows(m, w, d, d.len() as int, d.len() as int);
    assert forall|j: int| 0 <= j < d.len() implies #[trigger] entries(next)(j) == reached(j + 1)
        - reached(j) by {
        lemma_cumulative_grows(m, w, d, j, j + 1);
    }
    lemma_sum_to_telescope(entries(next), reached, d.len() as int);
    lemma_cumulative_grows(m, w, d, 0, 0);
}

/// The density that the iteration ends with adds up to `ONE`.
pub proof fn lemma_iteration_is_density(m: Seq<Seq<bool>>, w: Seq<u64>, d: Seq<u64>, fuel: nat)
    requires
        em_iterate(m, w, d, fuel) is Ok,
    ensures
        is_density(em_iterate(m, w, d, fuel)->Ok_0),
        em_iterate(m, w, d, fuel)->Ok_0.len() == d.len(),
    decreases fuel,
{
    if fuel > 0 {
        lemma_step_is_density(m, w, d);
        let next = em_step(m, w, d)->Ok_0;
        if !crate::kaplan_meier::within_tolerance(next, d) {
            lemma_iteration_is_density(m, w, next, (fuel - 1) as nat);
        }
    }
}

/// Every estimate is a survival function: it is a table on the time grid of
/// the sample, its density adds up to `ONE`, its survival probabilities are
/// no more than `ONE` and never rise from one row to the next, and its last
/// row is that of `INFINITY`, with survival probability 0.
pub proof fn lemma_estimate_is_survival(events: Seq<Surv>, weights: Option<Seq<u64>>)
    requires
        estimate(events, weights) is Ok,
    ensures
        density_of(events, weights) is Ok,
        is_density(density_of(events, weights)->Ok_0),
        estimate(events, weights)->Ok_0.len() == grid_of(events).len(),
        non_increasing(estimate(events, weights)->Ok_0),
        is_proper(estimate(events, weights)->Ok_0),
        estimate(events, weights)->Ok_0.last() == (INFINITY, 0u64, 0u64),
{
    let g = grid_of(events);
    let w = weights_or_unit(events.len(), weights);
    let d = density_of(events, weights)->Ok_0;
    lemma_grid_exists(events);
    lemma_grid_ends_at_infinity(g, events, events.len() as int);
    lemma_iteration_is_density(
        compatibility(events, g),
        w,
        uniform_density(g.len()),
        MAX_ITERATIONS as nat,
    );
    lemma_survival_non_increasing(g, d);
}

/// The uniform density adds up to `ONE`.
pub proof fn lemma_uniform_is_density(p: nat)
    requires
        p > 0,
    ensures
        is_density(uniform_density(p)),
{
    let start = uniform_density(p);
    let reached = |k: int| ONE * k / (p as int);
    assert forall|j: int| 0 <= j < p implies #[trigger] entries(start)(j) == reached(j + 1)
        - reached(j) by {
        lemma_scaled_part(j, j + 1, p as int);
    }
    lemma_sum_to_telescope(entries(start), reached, p as int);
    lemma_scaled_part(p as int, p as int, p as int);
}

/// The uniform density on no more than `ONE` points is positive at each.
pub proof fn lemma_uniform_positive(p: nat, j: int)
    requires
        0 < p <= ONE,
        0 <= j < p,
    ensures
        uniform_density(p)[j] > 0,
{
    lemma_increment_positive(p as int, j);
}

/// An observation admits no point of the grid.
pub open spec fn admits_none(s: Surv, g: Seq<u64>) -> bool {
    forall|j: int| 0 <= j < g.len() ==> !s@.admits(#[trigger] g[j])
}

/// Under a density that is positive everywhere, a row has no mass exactly
/// where its observation admits no grid point.
pub proof fn lemma_row_without_mass(events: Seq<Surv>, g: Seq<u64>, d: Seq<u64>, i: int)
    requires
        0 <= i < events.len(),
        d.len() == g.len(),
        forall|j: int| 0 <= j < d.len() ==> #[trigger] d[j] > 0,
    ensures
        row_mass(compatibility(events, g)[i], d) == 0 <==> admits_none(events[i], g),
        row_mass(compatibility(events, g)[i], d) >= 0,
{
    let row = compatibility(events, g)[i];
    assert forall|j: int| 0 <= j < g.len() implies #[trigger] row[j] == events[i]@.admits(g[j]) by {}
    lemma_sum_to_grows(cell(row, d), d.len() as int, d.len() as int);
    if admits_none(events[i], g) {
        assert forall|j: int| 0 <= j < d.len() implies #[trigger] cell(row, d)(j) == 0 by {
            assert(!events[i]@.admits(g[j]));
            assert(row[j] == events[i]@.admits(g[j]));
        }
        lemma_sum_to_zero(cell(row, d), d.len() as int);
    } else {
        let j: int = choose|j: int| 0 <= j < g.len() && events[i]@.admits(#[trigger] g[j]);
        assert(row[j] == events[i]@.admits(g[j]));
        assert(cell(row, d)(j) == d[j]);
        lemma_sum_to_term(cell(row, d), d.len() as int, j);
    }
}

/// Where the weights are as many as the observations and within the limit,
/// the times of each observation are in order, and the grid has no more than
/// `ONE` points, the first observation that admits no grid point is reported
/// as a row without mass, at the first step.
pub proof fn lemma_degenerate_sample(events: Seq<Surv>, weights: Option<Seq<u64>>, i: int)
    requires
        weights_or_unit(events.len(), weights).len() == events.len(),
        !has_invalid(events),
        total(weights_or_unit(events.len(), weights)) <= MAX_TOTAL_WEIGHT,
        grid_of(events).len() <= ONE,
        0 <= i < events.len(),
        admits_none(events[i], grid_of(events)),
        forall|k: int| 0 <= k < i ==> !admits_none(#[trigger] events[k], grid_of(events)),
    ensures
        density_of(events, weights) == Err::<Seq<u64>, SurvError>(
            SurvError::DegenerateRow { index: i as usize },
        ),
{
    let g = grid_of(events);
    let m = compatibility(events, g);
    let start = uniform_density(g.len());
    assert forall|j: int| 0 <= j < start.len() implies #[trigger] start[j] > 0 by {
        lemma_uniform_positive(g.len(), j);
    }
    lemma_row_without_mass(events, g, start, i);
    assert forall|k: int| 0 <= k < i implies row_mass(#[trigger] m[k], start) > 0 by {
        lemma_row_without_mass(events, g, start, k);
        assert(!admits_none(events[k], g));
    }
    assert(row_mass(m[i], start) == 0);
    assert(is_first_degenerate(m, start, i));
    assert(has_degenerate(m, start));
    let c: int = first_degenerate(m, start);
    assert(c == i) by {
        if c < i {
            assert(row_mass(m[c], start) > 0);
        }
        if i < c {
            assert(row_mass(m[i], start) > 0);
        }
    }
}

/// Where every observation admits a grid point, and the grid has no more
/// than `ONE` points, no row is without mass at the first step.
pub proof fn lemma_sound_sample(events: Seq<Surv>)
    requires
        0 < grid_of(events).len() <= ONE,
        forall|k: int| 0 <= k < events.len() ==> !admits_none(#[trigger] events[k], grid_of(events)),
    ensures
        !has_degenerate(
            compatibility(events, grid_of(events)),
            uniform_density(grid_of(events).len()),
        ),
{
    let g = grid_of(events);
    let m = compatibility(events, g);
    let start = uniform_density(g.len());
    assert forall|j: int| 0 <= j < start.len() implies #[trigger] start[j] > 0 by {
        lemma_uniform_positive(g.len(), j);
    }
    assert forall|k: int| 0 <= k < m.len() implies row_mass(#[trigger] m[k], start) != 0 by {
        lemma_row_without_mass(events, g, start, k);
        assert(!admits_none(events[k], g));
    }
}

/// Where no row is without mass, the column sums are all zero exactly where
/// the weights are.
pub proof fn lemma_zero_mass(m: Seq<Seq<bool>>, w: Seq<u64>, d: Seq<u64>)
    requires
        m.len() == w.len(),
        total(d) <= ONE,
        !has_degenerate(m, d),
    ensures
        total_mass(m, w, d) == 0 <==> total(w) == 0,
{
    let n: int = m.len() as int;
    let p: int = d.len() as int;
    lemma_sum_to_grows(entries(w), n, n);
    if forall|i: int| 0 <= i < n ==> #[trigger] w[i] == 0 {
        lemma_sum_to_zero(entries(w), n);
        assert forall|j: int| 0 <= j < p implies #[trigger] column_masses(m, w, d)(j) == 0 by {
            assert forall|i: int| 0 <= i < n implies #[trigger] weighted_share(m, w, d, j)(i)
                == 0 by {
                let x: int = share(m[i], d, j);
                let wi: int = w[i] as int;
                assert(wi * x == 0) by (nonlinear_arith)
                    requires
                        wi == 0,
                ;
            }
            lemma_sum_to_zero(weighted_share(m, w, d, j), n);
        }
        lemma_sum_to_zero(column_masses(m, w, d), p);
    } else {
        let i: int = choose|i: int| 0 <= i < n && #[trigger] w[i] != 0;
        lemma_sum_to_term(entries(w), n, i);
        assert(entries(w)(i) == w[i]);
        let row = m[i];
        let mass: int = row_mass(row, d);
        lemma_sum_to_grows(cell(row, d), p, p);
        assert(mass > 0);
        if forall|j: int| 0 <= j < p ==> #[trigger] cell(row, d)(j) == 0 {
            lemma_sum_to_zero(cell(row, d), p);
        }
        let j: int = choose|j: int| 0 <= j < p && #[trigger] cell(row, d)(j) != 0;
        assert forall|k: int| 0 <= k < p implies #[trigger] cell(row, d)(k) <= entries(d)(k) by {}
        lemma_sum_to_le(cell(row, d), entries(d), p);
        assert(mass <= ONE);
        let dj: int = d[j] as int;
        assert(row[j] && dj >= 1);
        assert(mass <= dj * ONE);
        vstd::arithmetic::div_mod::lemma_div_is_ordered(mass, dj * ONE, mass);
        vstd::arithmetic::div_mod::lemma_div_by_self(mass);
        let x: int = share(row, d, j);
        assert(x >= 1);
        let wi: int = w[i] as int;
        assert(wi * x >= 1) by (nonlinear_arith)
            requires
                wi >= 1,
                x >= 1,
        ;
        lemma_contributions_not_negative(m, w, d, j);
        lemma_sum_to_term(weighted_share(m, w, d, j), n, i);
        assert(column_masses(m, w, d)(j) >= 1);
        assert forall|k: int| 0 <= k < p implies 0 <= #[trigger] column_masses(m, w, d)(k) by {
            lemma_contributions_not_negative(m, w, d, k);
            lemma_sum_to_grows(weighted_share(m, w, d, k), n, n);
        }
        lemma_sum_to_term(column_masses(m, w, d), p, j);
    }
}

/// The iteration, from a density, does not fail for want of weight where
/// some weight is positive.
pub proof fn lemma_weight_suffices(m: Seq<Seq<bool>>, w: Seq<u64>, d: Seq<u64>, fuel: nat)
    requires
        m.len() == w.len(),
        total(d) <= ONE,
        total(w) > 0,
    ensures
        em_iterate(m, w, d, fuel) != Err::<Seq<u64>, SurvError>(SurvError::ZeroWeight),
    decreases fuel,
{
    if fuel > 0 {
        if !has_degenerate(m, d) {
            lemma_zero_mass(m, w, d);
            lemma_step_is_density(m, w, d);
            lemma_weight_suffices(m, w, em_step(m, w, d)->Ok_0, (fuel - 1) as nat);
        }
    }
}

/// A sample is rejected for want of weight only where its weights add up to
/// zero; and where they do, and every observation admits a grid point, and
/// nothing else is amiss, it is rejected so.
pub proof fn lemma_zero_weight(events: Seq<Surv>, weights: Option<Seq<u64>>)
    ensures
        density_of(events, weights) == Err::<Seq<u64>, SurvError>(SurvError::ZeroWeight) ==> total(
            weights_or_unit(events.len(), weights),
        ) == 0,
        ({
            &&& weights_or_unit(events.len(), weights).len() == events.len()
            &&& !has_invalid(events)
            &&& total(weights_or_unit(events.len(), weights)) == 0
            &&& grid_of(events).len() <= ONE
            &&& forall|k: int|
                0 <= k < events.len() ==> !admits_none(#[trigger] events[k], grid_of(events))
        }) ==> density_of(events, weights) == Err::<Seq<u64>, SurvError>(SurvError::ZeroWeight),
{
    let w = weights_or_unit(events.len(), weights);
    let g = grid_of(events);
    let m = compatibility(events, g);
    let start = uniform_density(g.len());
    lemma_grid_exists(events);
    lemma_grid_ends_at_infinity(g, events, events.len() as int);
    lemma_sum_to_grows(entries(w), w.len() as int, w.len() as int);
    if w.len() == events.len() && !has_invalid(events) && total(w) <= MAX_TOTAL_WEIGHT {
        lemma_uniform_is_density(g.len());
        if total(w) > 0 {
            lemma_weight_suffices(m, w, start, MAX_ITERATIONS as nat);
        } else if g.len() <= ONE && forall|k: int|
            0 <= k < events.len() ==> !admits_none(#[trigger] events[k], g) {
            lemma_sound_sample(events);
            lemma_zero_mass(m, w, start);
        }
    }
}

} // verus!
