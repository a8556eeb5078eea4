//! Nonparametric estimation of a survival function from exact, right-censored
//! and interval-censored observations, by the self-consistency iteration that
//! generalises the Kaplan-Meier estimator.
//!
//! Everything is computed on integers, so that every result is determined to
//! the last digit and proved so.
//!
//! * A time is a code of type `u64`. The estimator only ever compares times,
//!   so any coding that keeps their order will do; `INFINITY` is the code of
//!   a time that never comes.
//! * A probability is a fixed-point number: a count of units of `1 / ONE`.
//!   Where a division does not come out even, it is rounded down, and a
//!   density is made from the increments of its rounded cumulative sums, so
//!   that it adds up to `ONE` exactly.
//! * A weight is a whole number. Only the proportions of the weights matter.
//!
//! `kaplan_meier::kaplan_meier` is the estimator; what it returns is stated
//! by `kaplan_meier::estimate`. What is proved of every estimate is in four
//! modules: `laws` (an estimate is a survival function; only the proportions
//! of the weights matter; when a sample is rejected for want of weight),
//! `product_limit` (without censoring the estimate is the product-limit
//! curve), `support` (with positive weights that, with the grid points,
//! number no more than `ONE`, a sample is rejected for a row without mass
//! exactly where an observation admits no grid point) and `order` (the order
//! of the observations does not matter).

pub mod censoring;
pub mod error;
pub mod grid;
pub mod kaplan_meier;
pub mod laws;
pub mod order;
pub mod probability;
pub mod product_limit;
pub mod sums;
pub mod support;
