//! The estimator: the self-consistency iteration on the time grid.

use crate::censoring::surv_result::{is_proper, non_increasing, survival_table, SurvResult};
use crate::censoring::{Surv, INFINITY};
use crate::error::SurvError;
use crate::grid::{event_grid, grid_of, is_event_grid, lemma_grid_ends_at_infinity};
use crate::probability::{is_density, lemma_floor_times, lemma_scaled_part, ONE, TOLERANCE};
use crate::sums::{
    entries, lemma_sum_to_agree, lemma_sum_to_bump, lemma_sum_to_grows,
    lemma_sum_to_term, lemma_total_push, sum_to, total, wide_entries, wide_total,
};
use vstd::prelude::*;

verus! {

/// The most steps that the iteration takes.
pub const MAX_ITERATIONS: usize = 500;

/// The most that the weights may add up to.
pub const MAX_TOTAL_WEIGHT: u64 = 100_000_000_000_000;

/// The rows of a matrix as sequences.
pub open spec fn rows(m: Seq<Vec<bool>>) -> Seq<Seq<bool>> {
    Seq::new(m.len(), |i: int| m[i]@)
}

/// The density at each grid point that a row admits, and 0 elsewhere.
pub open spec fn cell(row: Seq<bool>, d: Seq<u64>) -> spec_fn(int) -> int {
    |j: int|
        if row[j] {
            d[j] as int
        } else {
            0
        }
}

/// The mass that the density `d` gives to the grid points that a row admits.
pub open spec fn row_mass(row: Seq<bool>, d: Seq<u64>) -> int {
    sum_to(cell(row, d), d.len() as int)
}

/// The share of an observation that goes to grid point `j`: the density
/// there as a part of the row's mass, rounded down to a whole unit.
pub open spec fn share(row: Seq<bool>, d: Seq<u64>, j: int) -> int {
    if row[j] {
        d[j] * ONE / row_mass(row, d)
    } else {
        0
    }
}

/// What each observation contributes to grid point `j`: its weight times its
/// share there.
pub open spec fn weighted_share(m: Seq<Seq<bool>>, w: Seq<u64>, d: Seq<u64>, j: int) -> spec_fn(
    int,
) -> int {
    |i: int| w[i] * share(m[i], d, j)
}

/// The weighted sum of column `j` of the allocation.
pub open spec fn column_mass(m: Seq<Seq<bool>>, w: Seq<u64>, d: Seq<u64>, j: int) -> int {
    sum_to(weighted_share(m, w, d, j), m.len() as int)
}

/// The weighted column sums.
pub open spec fn column_masses(m: Seq<Seq<bool>>, w: Seq<u64>, d: Seq<u64>) -> spec_fn(int) -> int {
    |j: int| column_mass(m, w, d, j)
}

/// The weighted sums of the first `k` columns, added up.
pub open spec fn mass_to(m: Seq<Seq<bool>>, w: Seq<u64>, d: Seq<u64>, k: int) -> int {
    sum_to(column_masses(m, w, d), k)
}

/// The weighted column sums, added up over all columns.
pub open spec fn total_mass(m: Seq<Seq<bool>>, w: Seq<u64>, d: Seq<u64>) -> int {
    mass_to(m, w, d, d.len() as int)
}

/// The new cumulative distribution before grid point `k`: the first `k`
/// column sums as a part of all of them, rounded down to a whole unit.
pub open spec fn cumulative(m: Seq<Seq<bool>>, w: Seq<u64>, d: Seq<u64>, k: int) -> int {
    ONE * mass_to(m, w, d, k) / total_mass(m, w, d)
}

/// The density after one step: the increments of the new cumulative
/// distribution.
pub open spec fn next_density(m: Seq<Seq<bool>>, w: Seq<u64>, d: Seq<u64>) -> Seq<u64> {
    Seq::new(d.len(), |j: int| (cumulative(m, w, d, j + 1) - cumulative(m, w, d, j)) as u64)
}

/// Row `i` is the first whose mass under `d` is zero.
pub open spec fn is_first_degenerate(m: Seq<Seq<bool>>, d: Seq<u64>, i: int) -> bool {
    &&& 0 <= i < m.len()
    &&& row_mass(m[i], d) == 0
    &&& forall|k: int| 0 <= k < i ==> row_mass(#[trigger] m[k], d) > 0
}

/// Some row has no mass under `d`.
pub open spec fn has_degenerate(m: Seq<Seq<bool>>, d: Seq<u64>) -> bool {
    exists|i: int| 0 <= i < m.len() && row_mass(#[trigger] m[i], d) == 0
}

/// The first row that has no mass under `d`.
pub open spec fn first_degenerate(m: Seq<Seq<bool>>, d: Seq<u64>) -> int {
    choose|i: int| is_first_degenerate(m, d, i)
}

/// One step of the iteration: each observation is shared out over the grid
/// points that it admits in proportion to the density `d`, and the weighted
/// column sums, as parts of their total, are the new density. There is no
/// new density where a row has no mass, or where the column sums are all
/// zero.
pub open spec fn em_step(m: Seq<Seq<bool>>, w: Seq<u64>, d: Seq<u64>) -> Result<
    Seq<u64>,
    SurvError,
> {
    if has_degenerate(m, d) {
        Err(SurvError::DegenerateRow { index: first_degenerate(m, d) as usize })
    } else if total_mass(m, w, d) == 0 {
        Err(SurvError::ZeroWeight)
    } else {
        Ok(next_density(m, w, d))
    }
}

/// The cumulative sums of `cols` as parts of their total, in units.
pub open spec fn scaled_to(cols: Seq<u128>, k: int) -> int {
    ONE * sum_to(wide_entries(cols), k) / wide_total(cols)
}

/// Adds up the density at the grid points that a row admits.
fn row_mass_of(row: &Vec<bool>, density: &Vec<u64>) -> (mass: u64)
    requires
        row.len() == density.len(),
        total(density@) <= ONE,
    ensures
        mass == row_mass(row@, density@),
{
    let mut mass: u64 = 0;
    let mut j: usize = 0;
    while j < density.len()
        invariant
            j <= density.len(),
            row.len() == density.len(),
            total(density@) <= ONE,
            mass == sum_to(cell(row@, density@), j as int),
            mass <= sum_to(entries(density@), j as int),
        decreases density.len() - j,
    {
        proof {
            lemma_sum_to_grows(entries(density@), j + 1, density.len() as int);
        }
        if row[j] {
            mass = mass + density[j];
        }
        j += 1;
    }
    mass
}

/// Shares one observation out over the columns: adds to each column the
/// observation's weight times its share there.
fn spread_row(cols: &mut Vec<u128>, row: &Vec<bool>, density: &Vec<u64>, mass: u64, weight: u64)
    requires
        old(cols).len() == density.len(),
        row.len() == density.len(),
        total(density@) <= ONE,
        mass == row_mass(row@, density@),
        mass > 0,
        wide_total(old(cols)@) + weight * ONE <= u128::MAX,
    ensures
        final(cols).len() == density.len(),
        forall|j: int|
            0 <= j < density.len() ==> #[trigger] final(cols)[j] == old(cols)[j] + weight * share(
                row@,
                density@,
                j,
            ),
        wide_total(final(cols)@) <= wide_total(old(cols)@) + weight * ONE,
{
    let ghost start: Seq<u128> = cols@;
    let ghost mut given: int = 0;
    let mut j: usize = 0;
    while j < density.len()
        invariant
            j <= density.len(),
            cols.len() == density.len(),
            row.len() == density.len(),
            start.len() == density.len(),
            total(density@) <= ONE,
            mass == row_mass(row@, density@),
            mass > 0,
            wide_total(start) + weight * ONE <= u128::MAX,
            forall|k: int|
                0 <= k < j ==> #[trigger] cols[k] == start[k] + weight * share(row@, density@, k),
            forall|k: int| j <= k < density.len() ==> #[trigger] cols[k] == start[k],
            0 <= given,
            given * mass <= ONE * sum_to(cell(row@, density@), j as int),
            wide_total(cols@) == wide_total(start) + weight * given,
        decreases density.len() - j,
    {
        let ghost part: int = sum_to(cell(row@, density@), j as int);
        proof {
            lemma_sum_to_grows(cell(row@, density@), j + 1, density.len() as int);
        }
        if row[j] {
            let ghost before: Seq<u128> = cols@;
            let dj: u64 = density[j];
            proof {
                lemma_sum_to_term(cell(row@, density@), density.len() as int, j as int);
                assert(cell(row@, density@)(j as int) == dj);
                assert(dj <= mass);
                lemma_sum_to_term(entries(density@), density.len() as int, j as int);
                assert(dj <= ONE);
                assert(dj * ONE <= ONE * ONE) by (nonlinear_arith)
                    requires
                        dj <= ONE,
                ;
            }
            let s: u128 = (dj as u128 * ONE as u128) / (mass as u128);
            proof {
                assert(s == share(row@, density@, j as int));
                lemma_floor_times(dj * ONE, mass as int);
                vstd::arithmetic::div_mod::lemma_div_is_ordered(dj * ONE, mass * ONE, mass as int);
                vstd::arithmetic::div_mod::lemma_div_by_multiple(ONE as int, mass as int);
                assert(ONE * mass == mass * ONE);
                assert(s <= ONE);
                assert((given + s) * mass == given * mass + s * mass) by (nonlinear_arith);
                assert(ONE * (part + dj) == ONE * part + dj * ONE);
                assert((given + s) * mass <= ONE * (part + dj));
                assert(ONE * (part + dj) <= ONE * mass);
                assert(given + s <= ONE) by (nonlinear_arith)
                    requires
                        (given + s) * mass <= ONE * mass,
                        mass > 0,
                ;
                assert(weight * (given + s) == weight * given + weight * s) by (nonlinear_arith);
                assert(weight * (given + s) <= weight * ONE) by (nonlinear_arith)
                    requires
                        given + s <= ONE,
                        0 <= weight,
                ;
                assert(0 <= weight * given) by (nonlinear_arith)
                    requires
                        0 <= given,
                        0 <= weight,
                ;
                lemma_sum_to_term(wide_entries(start), start.len() as int, j as int);
            }
            let add: u128 = weight as u128 * s;
            let cur: u128 = cols[j];
            cols.set(j, cur + add);
            proof {
                lemma_sum_to_bump(
                    wide_entries(before),
                    wide_entries(cols@),
                    j as int,
                    add as int,
                    density.len() as int,
                );
                given = given + s;
            }
        } else {
            proof {
                let none: int = share(row@, density@, j as int);
                assert(weight * none == 0) by (nonlinear_arith)
                    requires
                        none == 0,
                ;
            }
        }
        j += 1;
    }
    proof {
        assert(given <= ONE) by (nonlinear_arith)
            requires
                given * mass <= ONE * mass,
                mass > 0,
        ;
        assert(weight * given <= weight * ONE) by (nonlinear_arith)
            requires
                given <= ONE,
                0 <= weight,
        ;
    }
}

/// Turns column sums into a density: the increments of their cumulative sums
/// as parts of the total, each rounded down to a whole unit. There is none
/// where the total is zero.
fn normalize(cols: &Vec<u128>) -> (r: Option<Vec<u64>>)
    requires
        wide_total(cols@) <= MAX_TOTAL_WEIGHT * ONE,
    ensures
        r is None <==> wide_total(cols@) == 0,
        r matches Some(v) ==> {
            &&& v.len() == cols.len()
            &&& is_density(v@)
            &&& forall|j: int|
                0 <= j < cols.len() ==> #[trigger] v[j] == scaled_to(cols@, j + 1) - scaled_to(
                    cols@,
                    j,
                )
        },
{
    let mut whole: u128 = 0;
    let mut j: usize = 0;
    while j < cols.len()
        invariant
            j <= cols.len(),
            wide_total(cols@) <= MAX_TOTAL_WEIGHT * ONE,
            whole == sum_to(wide_entries(cols@), j as int),
        decreases cols.len() - j,
    {
        proof {
            lemma_sum_to_grows(wide_entries(cols@), j + 1, cols.len() as int);
        }
        whole = whole + cols[j];
        j += 1;
    }
    if whole == 0 {
        return None;
    }
    let mut out: Vec<u64> = Vec::new();
    let mut part: u128 = 0;
    let mut reached: u64 = 0;
    j = 0;
    proof {
        lemma_scaled_part(0, 0, whole as int);
    }
    while j < cols.len()
        invariant
            j <= cols.len(),
            whole == wide_total(cols@),
            0 < whole <= MAX_TOTAL_WEIGHT * ONE,
            part == sum_to(wide_entries(cols@), j as int),
            reached == ONE * part / (whole as int),
            reached == scaled_to(cols@, j as int),
            out.len() == j,
            total(out@) == reached,
            forall|k: int|
                0 <= k < j ==> #[trigger] out[k] == scaled_to(cols@, k + 1) - scaled_to(cols@, k),
        decreases cols.len() - j,
    {
        proof {
            lemma_sum_to_grows(wide_entries(cols@), j + 1, cols.len() as int);
            lemma_sum_to_grows(wide_entries(cols@), j as int, j + 1);
        }
        let more: u128 = part + cols[j];
        proof {
            lemma_scaled_part(part as int, more as int, whole as int);
            assert(ONE * more <= ONE * whole);
        }
        let next: u64 = ((ONE as u128 * more) / whole) as u64;
        proof {
            lemma_total_push(out@, (next - reached) as u64);
        }
        out.push(next - reached);
        part = more;
        reached = next;
        j += 1;
    }
    proof {
        lemma_scaled_part(whole as int, whole as int, whole as int);
    }
    Some(out)
}

/// One step of the iteration. Each observation is shared out over the grid
/// points that it admits, in proportion to the current density there; the
/// weighted column sums of these shares, as parts of their total, are the new
/// density.
pub fn km_helper(matrix: &Vec<Vec<bool>>, density: &Vec<u64>, weights: &Vec<u64>) -> (r: Result<
    Vec<u64>,
    SurvError,
>)
    requires
        matrix.len() == weights.len(),
        forall|i: int| 0 <= i < matrix.len() ==> (#[trigger] matrix[i]).len() == density.len(),
        total(density@) <= ONE,
        total(weights@) <= MAX_TOTAL_WEIGHT,
    ensures
        match r {
            Ok(next) => em_step(rows(matrix@), weights@, density@) == Ok::<Seq<u64>, SurvError>(
                next@,
            ) && is_density(next@) && next.len() == density.len(),
            Err(e) => em_step(rows(matrix@), weights@, density@) == Err::<Seq<u64>, SurvError>(e),
        },
{
    let ghost m: Seq<Seq<bool>> = rows(matrix@);
    let mut cols: Vec<u128> = Vec::new();
    let mut j: usize = 0;
    while j < density.len()
        invariant
            j <= density.len(),
            cols.len() == j,
            forall|k: int| 0 <= k < j ==> #[trigger] cols[k] == 0,
        decreases density.len() - j,
    {
        cols.push(0);
        j += 1;
    }
    proof {
        vstd::arithmetic::mul::lemma_mul_basics(ONE as int);
        crate::sums::lemma_sum_to_zero(wide_entries(cols@), cols.len() as int);
        assert forall|k: int| 0 <= k < density.len() implies #[trigger] cols[k] == sum_to(
            weighted_share(m, weights@, density@, k),
            0,
        ) by {}
    }
    let mut i: usize = 0;
    while i < matrix.len()
        invariant
            i <= matrix.len(),
            matrix.len() == weights.len(),
            m == rows(matrix@),
            forall|r: int| 0 <= r < matrix.len() ==> (#[trigger] matrix[r]).len() == density.len(),
            total(density@) <= ONE,
            total(weights@) <= MAX_TOTAL_WEIGHT,
            cols.len() == density.len(),
            forall|k: int|
                0 <= k < density.len() ==> #[trigger] cols[k] == sum_to(
                    weighted_share(m, weights@, density@, k),
                    i as int,
                ),
            wide_total(cols@) <= sum_to(entries(weights@), i as int) * ONE,
            forall|r: int| 0 <= r < i ==> row_mass(#[trigger] m[r], density@) > 0,
        decreases matrix.len() - i,
    {
        assert(m[i as int] == matrix[i as int]@);
        let mass: u64 = row_mass_of(&matrix[i], density);
        if mass == 0 {
            proof {
                assert(is_first_degenerate(m, density@, i as int));
                assert(has_degenerate(m, density@));
                let c: int = first_degenerate(m, density@);
                assert(c == i) by {
                    if c < i {
                        assert(row_mass(m[c], density@) > 0);
                    }
                    if i < c {
                        assert(row_mass(m[i as int], density@) > 0);
                    }
                }
            }
            return Err(SurvError::DegenerateRow { index: i });
        }
        proof {
            lemma_sum_to_grows(entries(weights@), i + 1, weights.len() as int);
            assert(sum_to(entries(weights@), i + 1) * ONE == sum_to(entries(weights@), i as int)
                * ONE + weights[i as int] * ONE) by (nonlinear_arith)
                requires
                    sum_to(entries(weights@), i + 1) == sum_to(entries(weights@), i as int)
                        + weights[i as int],
            ;
            assert(sum_to(entries(weights@), i + 1) * ONE <= MAX_TOTAL_WEIGHT * ONE)
                by (nonlinear_arith)
                requires
                    sum_to(entries(weights@), i + 1) <= MAX_TOTAL_WEIGHT,
            ;
        }
        spread_row(&mut cols, &matrix[i], density, mass, weights[i]);
        i += 1;
    }
    proof {
        lemma_sum_to_grows(entries(weights@), weights.len() as int, weights.len() as int);
        assert(sum_to(entries(weights@), i as int) * ONE <= MAX_TOTAL_WEIGHT * ONE)
            by (nonlinear_arith)
            requires
                sum_to(entries(weights@), i as int) <= MAX_TOTAL_WEIGHT,
        ;
        assert(!has_degenerate(m, density@));
        assert forall|k: int| 0 <= k <= density.len() implies sum_to(wide_entries(cols@), k)
            == #[trigger] mass_to(m, weights@, density@, k) by {
            lemma_sum_to_agree(wide_entries(cols@), column_masses(m, weights@, density@), k);
        }
        assert(wide_total(cols@) == total_mass(m, weights@, density@));
    }
    match normalize(&cols) {
        None => Err(SurvError::ZeroWeight),
        Some(next) => {
            proof {
                assert forall|k: int| 0 <= k < density.len() implies #[trigger] next[k]
                    == next_density(m, weights@, density@)[k] by {
                    assert(scaled_to(cols@, k + 1) == cumulative(m, weights@, density@, k + 1));
                    assert(scaled_to(cols@, k) == cumulative(m, weights@, density@, k));
                }
                assert(next@ =~= next_density(m, weights@, density@));
            }
            Ok(next)
        },
    }
}

/// The compatibility matrix: row `i`, column `j` says whether the interval of
/// observation `i` holds grid point `j`.
pub open spec fn compatibility(events: Seq<Surv>, grid: Seq<u64>) -> Seq<Seq<bool>> {
    Seq::new(events.len(), |i: int| Seq::new(grid.len(), |j: int| events[i]@.admits(grid[j])))
}

/// The uniform density on `p` grid points: the increments of `ONE * j / p`,
/// each rounded down to a whole unit.
pub open spec fn uniform_density(p: nat) -> Seq<u64> {
    Seq::new(p, |j: int| (ONE * (j + 1) / (p as int) - ONE * j / (p as int)) as u64)
}

/// The squares of the differences between two densities, point by point.
pub open spec fn squared_gap(a: Seq<u64>, b: Seq<u64>) -> spec_fn(int) -> int {
    |j: int| (a[j] - b[j]) * (a[j] - b[j])
}

/// The square of the Euclidean distance between two densities, in units.
pub open spec fn squared_distance(a: Seq<u64>, b: Seq<u64>) -> int {
    sum_to(squared_gap(a, b), a.len() as int)
}

/// The Euclidean distance between two densities is below `TOLERANCE`.
pub open spec fn within_tolerance(a: Seq<u64>, b: Seq<u64>) -> bool {
    squared_distance(a, b) < TOLERANCE * TOLERANCE
}

/// The iteration from the density `d`, with `fuel` steps left: a step is
/// taken, and its result is the answer if it lies within the tolerance of
/// `d`; otherwise the iteration goes on from it. A step that fails ends the
/// iteration with its error, and so does running out of steps.
pub open spec fn em_iterate(m: Seq<Seq<bool>>, w: Seq<u64>, d: Seq<u64>, fuel: nat) -> Result<
    Seq<u64>,
    SurvError,
>
    decreases fuel,
{
    if fuel == 0 {
        Err(SurvError::NotConverged)
    } else {
        match em_step(m, w, d) {
            Err(e) => Err(e),
            Ok(next) => if within_tolerance(next, d) {
                Ok(next)
            } else {
                em_iterate(m, w, next, (fuel - 1) as nat)
            },
        }
    }
}

/// The weight 1 for each of `n` observations.
pub open spec fn unit_weights(n: nat) -> Seq<u64> {
    Seq::new(n, |i: int| 1u64)
}

/// The weights that an estimate uses: those given, or else 1 for each
/// observation.
pub open spec fn weights_or_unit(n: nat, weights: Option<Seq<u64>>) -> Seq<u64> {
    match weights {
        Some(w) => w,
        None => unit_weights(n),
    }
}

/// Observation `i` is the first whose times are out of order.
pub open spec fn is_first_invalid(events: Seq<Surv>, i: int) -> bool {
    &&& 0 <= i < events.len()
    &&& !events[i]@.is_valid()
    &&& forall|k: int| 0 <= k < i ==> (#[trigger] events[k])@.is_valid()
}

/// Some observation's times are out of order.
pub open spec fn has_invalid(events: Seq<Surv>) -> bool {
    exists|i: int| 0 <= i < events.len() && !(#[trigger] events[i])@.is_valid()
}

/// The first observation whose times are out of order.
pub open spec fn first_invalid_index(events: Seq<Surv>) -> int {
    choose|i: int| is_first_invalid(events, i)
}

/// The converged density of a sample on its time grid, or the reason why
/// there is none. In this order: the weights must be as many as the
/// observations; each observation's times must be in order; the weights must
/// not add up to more than `MAX_TOTAL_WEIGHT`; and the iteration, started
/// from the uniform density, must succeed.
pub open spec fn density_of(events: Seq<Surv>, weights: Option<Seq<u64>>) -> Result<
    Seq<u64>,
    SurvError,
> {
    let w = weights_or_unit(events.len(), weights);
    let g = grid_of(events);
    if w.len() != events.len() {
        Err(SurvError::LengthMismatch)
    } else if has_invalid(events) {
        Err(SurvError::InvalidObservation { index: first_invalid_index(events) as usize })
    } else if total(w) > MAX_TOTAL_WEIGHT {
        Err(SurvError::WeightTooLarge)
    } else {
        em_iterate(compatibility(events, g), w, uniform_density(g.len()), MAX_ITERATIONS as nat)
    }
}

/// The estimate of a sample: the survival table of its converged density on
/// its time grid, or the reason why there is none.
pub open spec fn estimate(events: Seq<Surv>, weights: Option<Seq<u64>>) -> Result<
    Seq<(u64, u64, u64)>,
    SurvError,
> {
    match density_of(events, weights) {
        Ok(d) => Ok(survival_table(grid_of(events), d)),
        Err(e) => Err(e),
    }
}

/// The weights as a sequence, where there are any.
pub open spec fn weights_view(weights: Option<Vec<u64>>) -> Option<Seq<u64>> {
    match weights {
        Some(w) => Some(w@),
        None => None,
    }
}

/// Builds the compatibility matrix of a sample on a grid.
pub fn compatibility_matrix(events: &Vec<Surv>, grid: &Vec<u64>) -> (matrix: Vec<Vec<bool>>)
    ensures
        matrix.len() == events.len(),
        forall|i: int| 0 <= i < matrix.len() ==> (#[trigger] matrix[i]).len() == grid.len(),
        rows(matrix@) == compatibility(events@, grid@),
{
    let mut matrix: Vec<Vec<bool>> = Vec::new();
    let mut i: usize = 0;
    while i < events.len()
        invariant
            i <= events.len(),
            matrix.len() == i,
            forall|r: int|
                0 <= r < i ==> (#[trigger] matrix[r])@ == compatibility(events@, grid@)[r],
        decreases events.len() - i,
    {
        let surv: Surv = events[i];
        let mut row: Vec<bool> = Vec::new();
        let mut j: usize = 0;
        while j < grid.len()
            invariant
                j <= grid.len(),
                row.len() == j,
                surv == events[i as int],
                i < events.len(),
                forall|k: int| 0 <= k < j ==> #[trigger] row[k] == surv@.admits(grid[k]),
            decreases grid.len() - j,
        {
            row.push(surv.admits(grid[j]));
            j += 1;
        }
        proof {
            assert(row@ =~= compatibility(events@, grid@)[i as int]);
        }
        matrix.push(row);
        i += 1;
    }
    proof {
        assert(rows(matrix@) =~= compatibility(events@, grid@));
    }
    matrix
}

/// Finds the first observation whose times are out of order.
fn first_invalid(events: &Vec<Surv>) -> (found: Option<usize>)
    ensures
        match found {
            Some(i) => is_first_invalid(events@, i as int),
            None => forall|k: int| 0 <= k < events.len() ==> (#[trigger] events[k])@.is_valid(),
        },
{
    let mut i: usize = 0;
    while i < events.len()
        invariant
            i <= events.len(),
            forall|k: int| 0 <= k < i ==> (#[trigger] events[k])@.is_valid(),
        decreases events.len() - i,
    {
        if !events[i].is_valid() {
            return Some(i);
        }
        i += 1;
    }
    None
}

/// Whether the entries of `w` add up to no more than `limit`.
fn total_within(w: &Vec<u64>, limit: u64) -> (ok: bool)
    ensures
        ok == (total(w@) <= limit),
{
    let mut sum: u64 = 0;
    let mut i: usize = 0;
    while i < w.len()
        invariant
            i <= w.len(),
            sum == sum_to(entries(w@), i as int),
            sum <= limit,
        decreases w.len() - i,
    {
        proof {
            lemma_sum_to_grows(entries(w@), i + 1, w.len() as int);
        }
        if w[i] > limit - sum {
            return false;
        }
        sum = sum + w[i];
        i += 1;
    }
    true
}

/// The weight 1, `n` times.
fn ones(n: usize) -> (w: Vec<u64>)
    ensures
        w@ == unit_weights(n as nat),
{
    let mut w: Vec<u64> = Vec::new();
    let mut i: usize = 0;
    while i < n
        invariant
            i <= n,
            w.len() == i,
            forall|k: int| 0 <= k < i ==> #[trigger] w[k] == 1,
        decreases n - i,
    {
        w.push(1);
        i += 1;
    }
    proof {
        assert(w@ =~= unit_weights(n as nat));
    }
    w
}

/// The uniform density on `p` grid points.
fn uniform(p: usize) -> (d: Vec<u64>)
    requires
        p >= 1,
    ensures
        d@ == uniform_density(p as nat),
        is_density(d@),
{
    let mut d: Vec<u64> = Vec::new();
    let mut reached: u64 = 0;
    let mut j: usize = 0;
    proof {
        lemma_scaled_part(0, 0, p as int);
    }
    while j < p
        invariant
            j <= p,
            p >= 1,
            d.len() == j,
            reached == ONE * j / (p as int),
            total(d@) == reached,
            forall|k: int|
                0 <= k < j ==> #[trigger] d[k] == ONE * (k + 1) / (p as int) - ONE * k / (p as int),
        decreases p - j,
    {
        proof {
            lemma_scaled_part(j as int, j + 1, p as int);
            assert(ONE * (j + 1) <= ONE * p);
        }
        let next: u64 = ((ONE as u128 * (j as u128 + 1)) / (p as u128)) as u64;
        proof {
            lemma_total_push(d@, (next - reached) as u64);
        }
        d.push(next - reached);
        reached = next;
        j += 1;
    }
    proof {
        lemma_scaled_part(p as int, p as int, p as int);
        assert(d@ =~= uniform_density(p as nat));
    }
    d
}

/// Whether the Euclidean distance between two densities is below
/// `TOLERANCE`.
fn converged(next: &Vec<u64>, density: &Vec<u64>) -> (close: bool)
    requires
        next.len() == density.len(),
    ensures
        close == within_tolerance(next@, density@),
{
    let bound: u64 = TOLERANCE * TOLERANCE;
    let mut sum: u64 = 0;
    let mut j: usize = 0;
    proof {
        assert forall|k: int| 0 <= #[trigger] squared_gap(next@, density@)(k) by {
            let x: int = next@[k] - density@[k];
            assert(0 <= x * x) by (nonlinear_arith);
        }
    }
    while j < next.len()
        invariant
            j <= next.len(),
            next.len() == density.len(),
            bound == TOLERANCE * TOLERANCE,
            sum == sum_to(squared_gap(next@, density@), j as int),
            sum < bound,
            forall|k: int| 0 <= #[trigger] squared_gap(next@, density@)(k),
        decreases next.len() - j,
    {
        proof {
            lemma_sum_to_grows(squared_gap(next@, density@), j + 1, next.len() as int);
        }
        let gap: u64 = if next[j] >= density[j] {
            next[j] - density[j]
        } else {
            density[j] - next[j]
        };
        proof {
            let x: int = next@[j as int] - density@[j as int];
            assert(x * x == gap * gap) by (nonlinear_arith)
                requires
                    x == gap || x == -gap,
            ;
            if gap >= TOLERANCE {
                assert(gap * gap >= TOLERANCE * TOLERANCE) by (nonlinear_arith)
                    requires
                        gap >= TOLERANCE,
                ;
            } else {
                assert(gap * gap < TOLERANCE * TOLERANCE) by (nonlinear_arith)
                    requires
                        0 <= gap < TOLERANCE,
                ;
            }
        }
        if gap >= TOLERANCE {
            return false;
        }
        sum = sum + gap * gap;
        if sum >= bound {
            return false;
        }
        j += 1;
    }
    true
}

/// Estimates the density of the event time on the time grid of a sample, by
/// iterating from the uniform density until two successive densities lie
/// within the tolerance of each other. Returns the grid and the density,
/// which adds up to `ONE`.
///
/// Fails with the first of these that applies: `LengthMismatch`, where the
/// weights are not as many as the observations; `InvalidObservation`, with
/// the first observation whose times are out of order; `WeightTooLarge`,
/// where the weights add up to more than `MAX_TOTAL_WEIGHT`; and then with
/// the error that ends the iteration: `DegenerateRow`, with the first
/// observation whose grid points have no mass between them; `ZeroWeight`,
/// where the column sums are all zero; `NotConverged` after `MAX_ITERATIONS`
/// steps.
pub fn estimate_density(events: &Vec<Surv>, weights: Option<Vec<u64>>) -> (r: Result<
    (Vec<u64>, Vec<u64>),
    SurvError,
>)
    ensures
        match r {
            Ok((grid, density)) => {
                &&& is_event_grid(grid@, events@)
                &&& grid@ == grid_of(events@)
                &&& density_of(events@, weights_view(weights)) == Ok::<Seq<u64>, SurvError>(
                    density@,
                )
                &&& density.len() == grid.len()
                &&& is_density(density@)
            },
            Err(e) => density_of(events@, weights_view(weights)) == Err::<Seq<u64>, SurvError>(e),
        },
        weights matches Some(w) && w.len() != events.len() ==> r == Err::<
            (Vec<u64>, Vec<u64>),
            SurvError,
        >(SurvError::LengthMismatch),
{
    let w: Vec<u64> = match weights {
        Some(given) => given,
        None => ones(events.len()),
    };
    assert(w@ == weights_or_unit(events@.len(), weights_view(weights)));
    if w.len() != events.len() {
        return Err(SurvError::LengthMismatch);
    }
    match first_invalid(events) {
        Some(i) => {
            proof {
                assert(has_invalid(events@));
                let c: int = first_invalid_index(events@);
                assert(c == i) by {
                    if c < i {
                        assert(events@[c]@.is_valid());
                    }
                    if i < c {
                        assert(events@[i as int]@.is_valid());
                    }
                }
            }
            return Err(SurvError::InvalidObservation { index: i });
        },
        None => {},
    }
    assert(!has_invalid(events@));
    if !total_within(&w, MAX_TOTAL_WEIGHT) {
        return Err(SurvError::WeightTooLarge);
    }
    let grid: Vec<u64> = event_grid(events);
    let matrix: Vec<Vec<bool>> = compatibility_matrix(events, &grid);
    let mut density: Vec<u64> = uniform(grid.len());
    let ghost m: Seq<Seq<bool>> = compatibility(events@, grid@);
    let ghost answer: Result<Seq<u64>, SurvError> = em_iterate(
        m,
        w@,
        uniform_density(grid@.len()),
        MAX_ITERATIONS as nat,
    );
    let mut step: usize = 0;
    while step < MAX_ITERATIONS
        invariant
            step <= MAX_ITERATIONS,
            matrix.len() == w.len(),
            forall|i: int| 0 <= i < matrix.len() ==> (#[trigger] matrix[i]).len() == grid.len(),
            rows(matrix@) == m,
            density.len() == grid.len(),
            is_density(density@),
            total(w@) <= MAX_TOTAL_WEIGHT,
            is_event_grid(grid@, events@),
            grid@ == grid_of(events@),
            weights matches Some(given) ==> given.len() == events.len(),
            answer == density_of(events@, weights_view(weights)),
            answer == em_iterate(m, w@, density@, (MAX_ITERATIONS - step) as nat),
        decreases MAX_ITERATIONS - step,
    {
        match km_helper(&matrix, &density, &w) {
            Err(e) => {
                return Err(e);
            },
            Ok(next) => {
                let close: bool = converged(&next, &density);
                density = next;
                if close {
                    return Ok((grid, density));
                }
            },
        }
        step += 1;
    }
    Err(SurvError::NotConverged)
}

/// Estimates the survival function of a sample of observations, each with the
/// weight given for it, or with weight 1 where no weights are given.
///
/// The table is the survival table of the density that `estimate_density`
/// finds, on the time grid of the sample; where that fails, so does this,
/// with the same error.
pub fn kaplan_meier(events: Vec<Surv>, weights: Option<Vec<u64>>) -> (r: Result<
    SurvResult,
    SurvError,
>)
    ensures
        match r {
            Ok(table) => {
                &&& estimate(events@, weights_view(weights)) == Ok::<
                    Seq<(u64, u64, u64)>,
                    SurvError,
                >(table@)
                &&& table@.len() == grid_of(events@).len()
                &&& table@.len() >= 1
                &&& table@.last() == (INFINITY, 0u64, 0u64)
                &&& non_increasing(table@)
                &&& is_proper(table@)
            },
            Err(e) => estimate(events@, weights_view(weights)) == Err::<
                Seq<(u64, u64, u64)>,
                SurvError,
            >(e),
        },
        weights matches Some(w) && w.len() != events.len() ==> r matches Err(
            SurvError::LengthMismatch,
        ),
{
    match estimate_density(&events, weights) {
        Err(e) => Err(e),
        Ok((grid, density)) => {
            let ghost g: Seq<u64> = grid@;
            let ghost d: Seq<u64> = density@;
            match SurvResult::new_result(grid, density) {
                Ok(table) => {
                    proof {
                        lemma_grid_ends_at_infinity(g, events@, events@.len() as int);
                    }
                    Ok(table)
                },
                Err(e) => Err(e),
            }
        },
    }
}

} // verus!
