use survival::censoring::surv_result::SurvResult;
use survival::censoring::{Surv, INFINITY};
use survival::error::SurvError;
use survival::grid::event_grid;
use survival::probability::ONE;

#[test]
fn general_observation_keeps_its_values() {
    let s = Surv::new(1, 2, 5, 9);
    assert_eq!(s.get_entry_time(), 2);
    assert_eq!(s.get_exit_l(), 5);
    assert_eq!(s.get_exit_time(), 9);
    assert!(!s.is_censored());
    assert!(s.is_interval_censored());
    assert!(!s.is_exact_event());
    assert!(s.is_valid());
    assert!(s.admits(5) && s.admits(7) && s.admits(9));
    assert!(!s.admits(4) && !s.admits(10));
}

#[test]
fn nothing_is_checked_at_construction() {
    let s = Surv::new(7, 9, 5, 2);
    assert_eq!((s.get_entry_time(), s.get_exit_l(), s.get_exit_time()), (9, 5, 2));
    assert!(!s.is_valid());
    assert!(!Surv::new(1, 3, 2, 2).is_valid());
}

#[test]
fn event_is_exact() {
    let s = Surv::new_event(1, 0, 4);
    assert_eq!((s.get_entry_time(), s.get_exit_l(), s.get_exit_time()), (0, 4, 4));
    assert!(!s.is_censored());
    assert!(!s.is_interval_censored());
    assert!(s.is_exact_event());
    let c = Surv::new_event(0, 1, 4);
    assert!(c.is_censored());
    assert!(!c.is_exact_event());
    assert!(!Surv::new_event(2, 0, 4).is_exact_event());
}

#[test]
fn censored_observation_is_open_to_the_right() {
    let s = Surv::new_censor(1, 6);
    assert_eq!((s.get_entry_time(), s.get_exit_l(), s.get_exit_time()), (1, 6, INFINITY));
    assert!(s.is_censored());
    assert!(s.is_interval_censored());
    assert!(!s.is_exact_event());
    assert!(s.admits(6) && s.admits(INFINITY) && !s.admits(5));
}

#[test]
fn pairs_become_exact_observations_in_order() {
    let out = Surv::from_exit_vec(vec![(5, 1), (3, 0), (5, 2)]);
    assert_eq!(out.len(), 3);
    let seen: Vec<(u64, u64, u64, bool)> = out
        .iter()
        .map(|s| (s.get_entry_time(), s.get_exit_l(), s.get_exit_time(), s.is_censored()))
        .collect();
    assert_eq!(seen, vec![(0, 5, 5, false), (0, 3, 3, true), (0, 5, 5, false)]);
    assert!(out[0].is_exact_event() && !out[1].is_exact_event() && !out[2].is_exact_event());
    assert!(Surv::from_exit_vec(Vec::new()).is_empty());
}

#[test]
fn grid_is_sorted_before_duplicates_go() {
    let events = Surv::from_exit_vec(vec![(4, 1), (2, 1), (4, 1), (9, 1), (2, 1)]);
    assert_eq!(event_grid(&events), vec![2, 4, 9, INFINITY]);
}

#[test]
fn grid_holds_exact_events_only() {
    let events = vec![
        Surv::new_event(1, 0, 7),
        Surv::new_censor(0, 3),
        Surv::new(1, 0, 1, 2),
        Surv::new_event(0, 0, 5),
        Surv::new_event(1, 0, 0),
    ];
    assert_eq!(event_grid(&events), vec![0, 7, INFINITY]);
    assert_eq!(event_grid(&Vec::new()), vec![INFINITY]);
    assert_eq!(event_grid(&vec![Surv::new_event(1, 0, INFINITY)]), vec![INFINITY]);
}

#[test]
fn table_is_one_less_the_running_sum() {
    let density = vec![ONE / 4, 0, ONE / 2, ONE / 4];
    let result = SurvResult::new_result(vec![1, 5, 6, INFINITY], density).unwrap();
    let want = vec![(1, 3 * ONE / 4, 0), (5, 3 * ONE / 4, 0), (6, ONE / 4, 0), (INFINITY, 0, 0)];
    assert_eq!(result.times, want);
    assert_eq!(result.get_survival_table(), want);
}

#[test]
fn table_of_a_partial_density() {
    let result = SurvResult::new_result(vec![3, 4], vec![1, 2]).unwrap();
    assert_eq!(result.get_survival_table(), vec![(3, ONE - 1, 0), (4, ONE - 3, 0)]);
    let empty = SurvResult::new_result(Vec::new(), Vec::new()).unwrap();
    assert!(empty.get_survival_table().is_empty());
}

#[test]
fn returned_table_is_a_copy() {
    let result = SurvResult::new_result(vec![1, 2], vec![ONE / 2, ONE / 2]).unwrap();
    let mut copy = result.get_survival_table();
    copy[0] = (9, 9, 9);
    copy.push((1, 1, 1));
    assert_eq!(result.get_survival_table(), vec![(1, ONE / 2, 0), (2, 0, 0)]);
}

#[test]
fn table_needs_as_many_times_as_densities() {
    let r = SurvResult::new_result(vec![1, 2, 3], vec![ONE / 2, ONE / 2]);
    assert_eq!(r.unwrap_err(), SurvError::LengthMismatch);
    let r = SurvResult::new_result(vec![1], vec![ONE, 5]);
    assert_eq!(r.unwrap_err(), SurvError::LengthMismatch);
}

#[test]
fn density_beyond_one_is_rejected() {
    let r = SurvResult::new_result(vec![1, 2], vec![ONE, 1]);
    assert_eq!(r.unwrap_err(), SurvError::ExcessMass);
    let r = SurvResult::new_result(vec![1, 2], vec![u64::MAX, u64::MAX]);
    assert_eq!(r.unwrap_err(), SurvError::ExcessMass);
}
