//! The order in which the observations are given does not matter.

use crate::censoring::surv_result::survival_table;
use crate::censoring::Surv;
use crate::error::SurvError;
use crate::grid::{
    grid_of, is_event_grid, is_event_time_before, lemma_grid_exists, lemma_grid_unique,
};
use crate::kaplan_meier::{
    column_masses, compatibility, cumulative, density_of, em_iterate, em_step, estimate,
    has_degenerate, has_invalid, mass_to, next_density, row_mass, uniform_density, unit_weights,
    weighted_share, weights_or_unit, within_tolerance, MAX_ITERATIONS,
};
use crate::sums::{entries, is_permutation, lemma_sum_to_agree, lemma_sum_to_reordered};
use vstd::prelude::*;

verus! {

/// The entries of `s` in the order that `pi` lists them in.
pub open spec fn reordered<A>(s: Seq<A>, pi: Seq<int>) -> Seq<A> {
    Seq::new(s.len(), |i: int| s[pi[i]])
}

/// The weights, where there are any, in the order that `pi` lists them in.
pub open spec fn reordered_weights(weights: Option<Seq<u64>>, pi: Seq<int>) -> Option<Seq<u64>> {
    match weights {
        Some(w) => Some(reordered(w, pi)),
        None => None,
    }
}

/// Two outcomes are the same, but for the index of the observation that an
/// error names.
pub open spec fn same_outcome<A>(r: Result<A, SurvError>, s: Result<A, SurvError>) -> bool {
    match r {
        Err(SurvError::InvalidObservation { .. }) => s matches Err(
            SurvError::InvalidObservation { .. },
        ),
        Err(SurvError::DegenerateRow { .. }) => s matches Err(SurvError::DegenerateRow { .. }),
        _ => r == s,
    }
}

/// The time grid does not depend on the order of the observations.
pub proof fn lemma_reordered_grid(events: Seq<Surv>, pi: Seq<int>, inv: Seq<int>)
    requires
        is_permutation(pi, inv, events.len() as int),
    ensures
        grid_of(reordered(events, pi)) == grid_of(events),
{
    let n: int = events.len() as int;
    let other = reordered(events, pi);
    let g = grid_of(events);
    lemma_grid_exists(events);
    assert forall|t: u64| is_event_time_before(other, n, t) <==> is_event_time_before(
        events,
        n,
        t,
    ) by {
        if is_event_time_before(other, n, t) {
            let i: int = choose|i: int|
                0 <= i < n && i < other.len() && (#[trigger] other[i])@.is_exact_event()
                    && other[i]@.exit_l == t;
            assert(other[i] == events[pi[i]]);
            assert(events[pi[i]]@.is_exact_event());
        }
        if is_event_time_before(events, n, t) {
            let k: int = choose|k: int|
                0 <= k < n && k < events.len() && (#[trigger] events[k])@.is_exact_event()
                    && events[k]@.exit_l == t;
            assert(pi[inv[k]] == k);
            assert(other[inv[k]] == events[k]);
            assert(other[inv[k]]@.is_exact_event());
        }
    }
    assert(is_event_grid(g, other));
    lemma_grid_unique(g, other);
}

/// A step does not depend on the order of the rows, but for the index of the
/// row that it reports.
pub proof fn lemma_reordered_step(
    m: Seq<Seq<bool>>,
    w: Seq<u64>,
    pi: Seq<int>,
    inv: Seq<int>,
    d: Seq<u64>,
)
    requires
        m.len() == w.len(),
        is_permutation(pi, inv, m.len() as int),
    ensures
        has_degenerate(reordered(m, pi), d) == has_degenerate(m, d),
        same_outcome(em_step(m, w, d), em_step(reordered(m, pi), reordered(w, pi), d)),
{
    let n: int = m.len() as int;
    let m2 = reordered(m, pi);
    let w2 = reordered(w, pi);
    if has_degenerate(m, d) {
        let k: int = choose|k: int| 0 <= k < m.len() && row_mass(#[trigger] m[k], d) == 0;
        assert(pi[inv[k]] == k);
        assert(m2[inv[k]] == m[k]);
        assert(row_mass(m2[inv[k]], d) == 0);
    }
    if has_degenerate(m2, d) {
        let i: int = choose|i: int| 0 <= i < m2.len() && row_mass(#[trigger] m2[i], d) == 0;
        assert(m2[i] == m[pi[i]]);
        assert(row_mass(m[pi[i]], d) == 0);
    }
    if !has_degenerate(m, d) {
        assert forall|k: int| 0 <= k <= d.len() implies #[trigger] mass_to(m2, w2, d, k)
            == mass_to(m, w, d, k) by {
            assert forall|j: int| 0 <= j < k implies #[trigger] column_masses(m2, w2, d)(j)
                == column_masses(m, w, d)(j) by {
                let f = weighted_share(m, w, d, j);
                let g = weighted_share(m2, w2, d, j);
                assert forall|i: int| 0 <= i < n implies #[trigger] g(i) == f(pi[i]) by {
                    assert(m2[i] == m[pi[i]]);
                    assert(w2[i] == w[pi[i]]);
                }
                lemma_sum_to_reordered(f, g, pi, inv, n);
            }
            lemma_sum_to_agree(column_masses(m2, w2, d), column_masses(m, w, d), k);
        }
        assert(mass_to(m2, w2, d, d.len() as int) == mass_to(m, w, d, d.len() as int));
        assert forall|j: int| 0 <= j < d.len() implies #[trigger] next_density(m2, w2, d)[j]
            == next_density(m, w, d)[j] by {
            assert(cumulative(m2, w2, d, j) == cumulative(m, w, d, j));
            assert(cumulative(m2, w2, d, j + 1) == cumulative(m, w, d, j + 1));
        }
        assert(next_density(m2, w2, d) =~= next_density(m, w, d));
    }
}

/// The iteration does not depend on the order of the rows, but for the index
/// of the row that it reports.
pub proof fn lemma_reordered_iteration(
    m: Seq<Seq<bool>>,
    w: Seq<u64>,
    pi: Seq<int>,
    inv: Seq<int>,
    d: Seq<u64>,
    fuel: nat,
)
    requires
        m.len() == w.len(),
        is_permutation(pi, inv, m.len() as int),
    ensures
        same_outcome(
            em_iterate(m, w, d, fuel),
            em_iterate(reordered(m, pi), reordered(w, pi), d, fuel),
        ),
    decreases fuel,
{
    if fuel > 0 {
        lemma_reordered_step(m, w, pi, inv, d);
        match em_step(m, w, d) {
            Ok(next) => {
                if !within_tolerance(next, d) {
                    lemma_reordered_iteration(m, w, pi, inv, next, (fuel - 1) as nat);
                }
            },
            Err(_) => {},
        }
    }
}

/// The estimate of a sample does not depend on the order in which its
/// observations, each with its weight, are given: the table is the same, and
/// so is the error, but for the index of the observation that it names.
pub proof fn lemma_order_of_observations(
    events: Seq<Surv>,
    weights: Option<Seq<u64>>,
    pi: Seq<int>,
    inv: Seq<int>,
)
    requires
        is_permutation(pi, inv, events.len() as int),
    ensures
        same_outcome(
            density_of(events, weights),
            density_of(reordered(events, pi), reordered_weights(weights, pi)),
        ),
        same_outcome(
            estimate(events, weights),
            estimate(reordered(events, pi), reordered_weights(weights, pi)),
        ),
{
    let n: int = events.len() as int;
    let other = reordered(events, pi);
    let w = weights_or_unit(events.len(), weights);
    let w2 = weights_or_unit(other.len(), reordered_weights(weights, pi));
    let g = grid_of(events);
    lemma_reordered_grid(events, pi, inv);
    if has_invalid(events) {
        let k: int = choose|k: int| 0 <= k < events.len() && !(#[trigger] events[k])@.is_valid();
        assert(pi[inv[k]] == k);
        assert(other[inv[k]] == events[k]);
        assert(!other[inv[k]]@.is_valid());
    }
    if has_invalid(other) {
        let i: int = choose|i: int| 0 <= i < other.len() && !(#[trigger] other[i])@.is_valid();
        assert(other[i] == events[pi[i]]);
        assert(!events[pi[i]]@.is_valid());
    }
    if w.len() == events.len() {
        assert(w2 =~= reordered(w, pi)) by {
            if weights is None {
                assert forall|i: int| 0 <= i < n implies #[trigger] w2[i] == reordered(w, pi)[i] by {
                    assert(w[pi[i]] == 1);
                }
            }
        }
        assert forall|i: int| 0 <= i < n implies #[trigger] entries(w2)(i) == entries(w)(
            pi[i],
        ) by {}
        lemma_sum_to_reordered(entries(w), entries(w2), pi, inv, n);
        let m = compatibility(events, g);
        assert(compatibility(other, g) =~= reordered(m, pi)) by {
            assert forall|i: int| 0 <= i < n implies #[trigger] compatibility(other, g)[i]
                =~= m[pi[i]] by {
                assert(other[i] == events[pi[i]]);
            }
        }
        lemma_reordered_iteration(
            m,
            w,
            pi,
            inv,
            uniform_density(g.len()),
            MAX_ITERATIONS as nat,
        );
    }
}

} // verus!
