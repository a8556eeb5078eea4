//! The table that an estimate is reported in.

use crate::error::SurvError;
use crate::probability::ONE;
use crate::sums::{entries, lemma_sum_to_grows, sum_to, total};
use vstd::prelude::*;

verus! {

/// The survival table of a density on a grid: for each grid point, in order,
/// its time, the probability of surviving past it (`ONE` less the density up
/// to and including the point), and a variance that is not estimated and
/// always 0.
pub open spec fn survival_table(grid: Seq<u64>, density: Seq<u64>) -> Seq<(u64, u64, u64)> {
    Seq::new(
        grid.len(),
        |j: int| (grid[j], (ONE - sum_to(entries(density), j + 1)) as u64, 0u64),
    )
}

/// The survival probabilities of a table fall, or stay, from each row to the
/// next.
pub open spec fn non_increasing(table: Seq<(u64, u64, u64)>) -> bool {
    forall|i: int, j: int| 0 <= i <= j < table.len() ==> table[j].1 <= table[i].1
}

/// Every survival probability of a table is a probability, no more than
/// `ONE`, and every variance is 0.
pub open spec fn is_proper(table: Seq<(u64, u64, u64)>) -> bool {
    forall|j: int| 0 <= j < table.len() ==> (#[trigger] table[j]).1 <= ONE && table[j].2 == 0
}

/// In the survival table of a density that adds up to no more than `ONE`, the
/// survival probability is a probability, and never rises from one row to the
/// next.
pub proof fn lemma_survival_non_increasing(grid: Seq<u64>, density: Seq<u64>)
    requires
        grid.len() == density.len(),
        total(density) <= ONE,
    ensures
        non_increasing(survival_table(grid, density)),
        is_proper(survival_table(grid, density)),
{
    let table = survival_table(grid, density);
    assert forall|i: int, j: int| 0 <= i <= j < table.len() implies table[j].1 <= table[i].1 by {
        lemma_sum_to_grows(entries(density), i + 1, j + 1);
        lemma_sum_to_grows(entries(density), j + 1, density.len() as int);
    }
    assert forall|j: int| 0 <= j < table.len() implies (#[trigger] table[j]).1 <= ONE
        && table[j].2 == 0 by {
        lemma_sum_to_grows(entries(density), j + 1, density.len() as int);
    }
}

/// The estimated survival function as a table.
#[derive(Debug)]
pub struct SurvResult {
    /// One row for each grid point, in grid order: the time, the probability
    /// of surviving past it, and 0 in place of a variance.
    pub times: Vec<(u64, u64, u64)>,
}

impl View for SurvResult {
    type V = Seq<(u64, u64, u64)>;

    open spec fn view(&self) -> Seq<(u64, u64, u64)> {
        self.times@
    }
}

impl SurvResult {
    /// Builds the survival table of a density on a grid. The two must have
    /// the same length, and the density must add up to no more than `ONE`.
    pub fn new_result(times_vec: Vec<u64>, density_vec: Vec<u64>) -> (r: Result<Self, SurvError>)
        ensures
            match r {
                Ok(table) => {
                    &&& times_vec.len() == density_vec.len()
                    &&& total(density_vec@) <= ONE
                    &&& table@ == survival_table(times_vec@, density_vec@)
                    &&& non_increasing(table@)
                    &&& is_proper(table@)
                },
                Err(e) => {
                    ||| e == SurvError::LengthMismatch && times_vec.len() != density_vec.len()
                    ||| e == SurvError::ExcessMass && times_vec.len() == density_vec.len() && total(
                        density_vec@,
                    ) > ONE
                },
            },
    {
        if times_vec.len() != density_vec.len() {
            return Err(SurvError::LengthMismatch);
        }
        let mut result_vec: Vec<(u64, u64, u64)> = Vec::new();
        let mut cumsum: u64 = 0;
        let mut j: usize = 0;
        while j < times_vec.len()
            invariant
                j <= times_vec.len(),
                times_vec.len() == density_vec.len(),
                cumsum == sum_to(entries(density_vec@), j as int),
                cumsum <= ONE,
                result_vec.len() == j,
                forall|k: int|
                    0 <= k < j ==> #[trigger] result_vec[k] == survival_table(
                        times_vec@,
                        density_vec@,
                    )[k],
            decreases times_vec.len() - j,
        {
            proof {
                lemma_sum_to_grows(entries(density_vec@), j + 1, density_vec.len() as int);
            }
            if density_vec[j] > ONE - cumsum {
                return Err(SurvError::ExcessMass);
            }
            cumsum = cumsum + density_vec[j];
            result_vec.push((times_vec[j], ONE - cumsum, 0));
            j += 1;
        }
        proof {
            assert(result_vec@ =~= survival_table(times_vec@, density_vec@));
            lemma_survival_non_increasing(times_vec@, density_vec@);
        }
        Ok(SurvResult { times: result_vec })
    }

    /// A copy of the table, row by row.
    pub fn get_survival_table(&self) -> (table: Vec<(u64, u64, u64)>)
        ensures
            table@ == self@,
    {
        let mut table: Vec<(u64, u64, u64)> = Vec::new();
        let mut j: usize = 0;
        while j < self.times.len()
            invariant
                j <= self.times.len(),
                table.len() == j,
                forall|k: int| 0 <= k < j ==> #[trigger] table[k] == self.times[k],
            decreases self.times.len() - j,
        {
            table.push(self.times[j]);
            j += 1;
        }
        proof {
            assert(table@ =~= self.times@);
        }
        table
    }
}

} // verus!
