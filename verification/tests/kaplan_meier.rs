use survival::censoring::{Surv, INFINITY};
use survival::error::SurvError;
use survival::kaplan_meier::{
    compatibility_matrix, estimate_density, kaplan_meier, km_helper, MAX_TOTAL_WEIGHT,
};
use survival::probability::ONE;

/// The code of a time: its bit pattern, which for times that are not negative
/// is in the order of the times themselves.
fn code(t: f64) -> u64 {
    if t == f64::INFINITY {
        INFINITY
    } else {
        t.to_bits()
    }
}

/// The time that a code stands for.
fn time(c: u64) -> f64 {
    if c == INFINITY {
        f64::INFINITY
    } else {
        f64::from_bits(c)
    }
}

/// A fixed-point probability as a fraction.
fn prob(x: u64) -> f64 {
    x as f64 / ONE as f64
}

#[test]
fn km_simple() {
    let surv_vec = vec![
        Surv::new_event(1, code(0.0), code(2.0)),
        Surv::new_event(1, code(0.0), code(4.0)),
        Surv::new_event(1, code(0.0), code(6.0)),
        Surv::new_event(1, code(0.0), code(8.0)),
        Surv::new_event(1, code(0.0), code(10.0)),
    ];

    let result = kaplan_meier(surv_vec, None).unwrap();

    let expected = vec![
        (2.0, 0.8, 0.0),
        (4.0, 0.6, 0.0),
        (6.0, 0.4, 0.0),
        (8.0, 0.2, 0.0),
        (10.0, 0.0, 0.0),
        (f64::INFINITY, 0.0, 0.0),
    ];

    for (i, row) in result.get_survival_table().iter().enumerate() {
        let t = (time(row.0), prob(row.1), prob(row.2));
        println!("Time {}: {:?}", i, t);

        assert!(t.0 == expected.get(i).unwrap().0);
        assert!((t.1 - expected.get(i).unwrap().1) < 1e-9);
        assert!(t.2 == expected.get(i).unwrap().2);
    }
}

#[test]
fn km_simple_censoring() {
    let surv_vec = vec![
        Surv::new_event(1, code(0.0), code(2.0)),
        Surv::new_event(1, code(0.0), code(4.0)),
        Surv::new_censor(code(0.0), code(6.0)),
        Surv::new_event(1, code(0.0), code(8.0)),
        Surv::new_event(1, code(0.0), code(10.0)),
    ];

    let result = kaplan_meier(surv_vec, None).unwrap();

    let expected = vec![
        (2.0, 0.8, 0.0),
        (4.0, 0.6, 0.0),
        (8.0, 0.3, 0.0),
        (10.0, 0.0, 0.0),
        (f64::INFINITY, 0.0, 0.0),
    ];

    for (i, row) in result.get_survival_table().iter().enumerate() {
        let t = (time(row.0), prob(row.1), prob(row.2));
        println!("Time {}: {:?}", i, t);

        assert!(t.0 == expected.get(i).unwrap().0);
        assert!((t.1 - expected.get(i).unwrap().1) < 1e-9);
        assert!(t.2 == expected.get(i).unwrap().2);
    }
}

fn events_at(times: &[u64]) -> Vec<Surv> {
    times.iter().map(|t| Surv::new_event(1, 0, *t)).collect()
}

fn censored_sample() -> Vec<Surv> {
    vec![
        Surv::new_event(1, 0, 2),
        Surv::new_event(1, 0, 4),
        Surv::new_censor(0, 6),
        Surv::new_event(1, 0, 8),
        Surv::new_event(1, 0, 10),
    ]
}

fn mixed_sample() -> Vec<Surv> {
    vec![
        Surv::new_event(1, 0, 3),
        Surv::new(1, 0, 2, 6),
        Surv::new_event(1, 0, 5),
        Surv::new(0, 1, 4, INFINITY),
        Surv::new_event(1, 0, 9),
        Surv::new(0, 0, 1, 3),
    ]
}

#[test]
fn exact_events_give_the_product_limit_curve() {
    let table = kaplan_meier(events_at(&[2, 4, 6, 8, 10]), None).unwrap().get_survival_table();
    assert_eq!(
        table,
        vec![
            (2, 800_000_000_000, 0),
            (4, 600_000_000_000, 0),
            (6, 400_000_000_000, 0),
            (8, 200_000_000_000, 0),
            (10, 0, 0),
            (INFINITY, 0, 0),
        ]
    );
}

#[test]
fn exact_events_whose_share_is_not_a_whole_unit() {
    let table = kaplan_meier(events_at(&[1, 2, 3]), None).unwrap().get_survival_table();
    assert_eq!(
        table,
        vec![
            (1, ONE - ONE / 3, 0),
            (2, ONE - 2 * ONE / 3, 0),
            (3, 0, 0),
            (INFINITY, 0, 0),
        ]
    );
}

#[test]
fn right_censoring_moves_mass_to_later_events() {
    let table = kaplan_meier(censored_sample(), None).unwrap().get_survival_table();
    assert_eq!(
        table,
        vec![
            (2, 800_000_000_000, 0),
            (4, 600_000_000_000, 0),
            (8, 300_000_000_087, 0),
            (10, 173, 0),
            (INFINITY, 0, 0),
        ]
    );
    // Had the censored subject been an event at 6, the curve would be lower
    // at every later time.
    let as_event = kaplan_meier(events_at(&[2, 4, 6, 8, 10]), None).unwrap().get_survival_table();
    assert!(table[2].1 > as_event[3].1);
    assert!(table[3].1 > as_event[4].1);
}

#[test]
fn censored_sample_within_tolerance_of_the_limit() {
    let table = kaplan_meier(censored_sample(), None).unwrap().get_survival_table();
    let expected = [0.8, 0.6, 0.3, 0.0, 0.0];
    assert_eq!(table.len(), expected.len());
    for (row, want) in table.iter().zip(expected.iter()) {
        assert!((prob(row.1) - want).abs() < 1e-9);
    }
}

#[test]
fn density_adds_up_to_one() {
    let (grid, density) = estimate_density(&mixed_sample(), Some(vec![2, 1, 1, 3, 1, 2])).unwrap();
    assert_eq!(grid, vec![3, 5, 9, INFINITY]);
    assert_eq!(density, vec![459_223_908_272, 316_179_002_580, 224_597_089_036, 112]);
    assert_eq!(density.iter().sum::<u64>(), ONE);
    let (_, density) = estimate_density(&censored_sample(), None).unwrap();
    assert_eq!(density, vec![200_000_000_000, 200_000_000_000, 299_999_999_913, 299_999_999_914, 173]);
    assert_eq!(density.iter().sum::<u64>(), ONE);
}

#[test]
fn survival_never_rises_and_ends_at_zero() {
    let table = kaplan_meier(mixed_sample(), Some(vec![2, 1, 1, 3, 1, 2]))
        .unwrap()
        .get_survival_table();
    assert_eq!(
        table,
        vec![
            (3, 540_776_091_728, 0),
            (5, 224_597_089_148, 0),
            (9, 112, 0),
            (INFINITY, 0, 0),
        ]
    );
    for pair in table.windows(2) {
        assert!(pair[1].1 <= pair[0].1);
    }
    assert_eq!(*table.last().unwrap(), (INFINITY, 0, 0));
}

#[test]
fn scaling_the_weights_changes_nothing() {
    let plain = kaplan_meier(censored_sample(), None).unwrap().get_survival_table();
    let ones = kaplan_meier(censored_sample(), Some(vec![1; 5])).unwrap().get_survival_table();
    let threes = kaplan_meier(censored_sample(), Some(vec![3; 5])).unwrap().get_survival_table();
    assert_eq!(plain, ones);
    assert_eq!(plain, threes);
    let weights = vec![2, 1, 1, 3, 1, 2];
    let scaled: Vec<u64> = weights.iter().map(|w| w * 1000).collect();
    let a = kaplan_meier(mixed_sample(), Some(weights)).unwrap().get_survival_table();
    let b = kaplan_meier(mixed_sample(), Some(scaled)).unwrap().get_survival_table();
    assert_eq!(a, b);
}

#[test]
fn order_of_the_observations_does_not_matter() {
    let events = mixed_sample();
    let weights = vec![2, 1, 1, 3, 1, 2];
    let order = [4, 0, 5, 2, 1, 3];
    let shuffled: Vec<Surv> = order.iter().map(|i| events[*i]).collect();
    let shuffled_weights: Vec<u64> = order.iter().map(|i| weights[*i]).collect();
    let a = kaplan_meier(events, Some(weights)).unwrap().get_survival_table();
    let b = kaplan_meier(shuffled, Some(shuffled_weights)).unwrap().get_survival_table();
    assert_eq!(a, b);
    let mut reversed = censored_sample();
    reversed.reverse();
    assert_eq!(
        kaplan_meier(reversed, None).unwrap().get_survival_table(),
        kaplan_meier(censored_sample(), None).unwrap().get_survival_table()
    );
}

#[test]
fn weights_of_another_length_are_rejected() {
    let short = kaplan_meier(censored_sample(), Some(vec![1; 4]));
    assert_eq!(short.unwrap_err(), SurvError::LengthMismatch);
    let long = kaplan_meier(censored_sample(), Some(vec![1; 6]));
    assert_eq!(long.unwrap_err(), SurvError::LengthMismatch);
    let none = kaplan_meier(Vec::new(), Some(vec![1]));
    assert_eq!(none.unwrap_err(), SurvError::LengthMismatch);
}

#[test]
fn length_is_checked_before_the_observations() {
    let events = vec![Surv::new(1, 5, 3, 3)];
    assert_eq!(kaplan_meier(events, Some(vec![])).unwrap_err(), SurvError::LengthMismatch);
}

#[test]
fn observation_out_of_order_is_rejected() {
    let events = vec![
        Surv::new_event(1, 0, 2),
        Surv::new(1, 0, 7, 5),
        Surv::new(1, 9, 3, 3),
    ];
    assert_eq!(
        kaplan_meier(events, None).unwrap_err(),
        SurvError::InvalidObservation { index: 1 }
    );
    let late_entry = vec![Surv::new_event(1, 0, 2), Surv::new_event(1, 3, 2)];
    assert_eq!(
        kaplan_meier(late_entry, None).unwrap_err(),
        SurvError::InvalidObservation { index: 1 }
    );
}

#[test]
fn interval_without_a_grid_point_is_rejected() {
    let events = vec![Surv::new_event(1, 0, 3), Surv::new(0, 0, 5, 7)];
    assert_eq!(kaplan_meier(events, None).unwrap_err(), SurvError::DegenerateRow { index: 1 });
}

#[test]
fn sample_without_weight_is_rejected() {
    assert_eq!(kaplan_meier(Vec::new(), None).unwrap_err(), SurvError::ZeroWeight);
    assert_eq!(
        kaplan_meier(events_at(&[1, 2]), Some(vec![0, 0])).unwrap_err(),
        SurvError::ZeroWeight
    );
}

#[test]
fn weights_beyond_the_limit_are_rejected() {
    let heavy = kaplan_meier(events_at(&[1, 2]), Some(vec![MAX_TOTAL_WEIGHT, 1]));
    assert_eq!(heavy.unwrap_err(), SurvError::WeightTooLarge);
    let huge = kaplan_meier(events_at(&[1, 2]), Some(vec![u64::MAX, u64::MAX]));
    assert_eq!(huge.unwrap_err(), SurvError::WeightTooLarge);
    let full = kaplan_meier(events_at(&[1, 2]), Some(vec![MAX_TOTAL_WEIGHT / 2, MAX_TOTAL_WEIGHT / 2]));
    assert_eq!(
        full.unwrap().get_survival_table(),
        vec![(1, 500_000_000_000, 0), (2, 0, 0), (INFINITY, 0, 0)]
    );
}

#[test]
fn slow_iteration_is_given_up() {
    let events = vec![Surv::new_event(1, 0, 1), Surv::new_censor(0, 0)];
    assert_eq!(
        kaplan_meier(events, Some(vec![1, 10_000])).unwrap_err(),
        SurvError::NotConverged
    );
}

#[test]
fn zero_weight_can_leave_a_row_without_mass() {
    let result = kaplan_meier(events_at(&[1, 2]), Some(vec![0, 1]));
    assert_eq!(result.unwrap_err(), SurvError::DegenerateRow { index: 0 });
}

#[test]
fn events_with_another_indicator_are_not_grid_points() {
    let events = vec![Surv::new_event(1, 0, 2), Surv::new_event(0, 0, 2), Surv::new_event(2, 0, 2)];
    let (grid, density) = estimate_density(&events, None).unwrap();
    assert_eq!(grid, vec![2, INFINITY]);
    assert_eq!(density, vec![ONE, 0]);
    let events = vec![Surv::new_event(1, 0, 2), Surv::new_event(2, 0, 4)];
    assert_eq!(kaplan_meier(events, None).unwrap_err(), SurvError::DegenerateRow { index: 1 });
}

#[test]
fn matrix_marks_the_grid_points_in_each_interval() {
    let events = vec![
        Surv::new_event(1, 0, 4),
        Surv::new_censor(0, 3),
        Surv::new(0, 0, 1, 4),
        Surv::new(0, 0, 5, 7),
    ];
    let grid = vec![2, 4, 8, INFINITY];
    assert_eq!(
        compatibility_matrix(&events, &grid),
        vec![
            vec![false, true, false, false],
            vec![false, true, true, true],
            vec![true, true, false, false],
            vec![false, false, false, false],
        ]
    );
    assert_eq!(compatibility_matrix(&Vec::new(), &grid), Vec::<Vec<bool>>::new());
}

#[test]
fn one_step_of_the_iteration() {
    let matrix = vec![vec![true, false], vec![true, true]];
    let half = ONE / 2;
    assert_eq!(
        km_helper(&matrix, &vec![half, half], &vec![1, 1]),
        Ok(vec![750_000_000_000, 250_000_000_000])
    );
    let matrix = vec![vec![true, false, true], vec![false, true, true]];
    let density = vec![200_000_000_000, 300_000_000_000, 500_000_000_000];
    assert_eq!(
        km_helper(&matrix, &density, &vec![2, 3]),
        Ok(vec![114_285_714_285, 225_000_000_000, 660_714_285_715])
    );
}

#[test]
fn one_step_fails_on_a_row_without_mass() {
    let matrix = vec![vec![true, true], vec![false, true], vec![false, true]];
    assert_eq!(
        km_helper(&matrix, &vec![ONE, 0], &vec![1, 1, 1]),
        Err(SurvError::DegenerateRow { index: 1 })
    );
    let matrix = vec![vec![true, true]];
    assert_eq!(km_helper(&matrix, &vec![ONE, 0], &vec![0]), Err(SurvError::ZeroWeight));
}

/// A sample of sixty observations of every shape, from a fixed sequence of
/// numbers, and a weight from 1 to 5 for each.
fn long_sample() -> (Vec<Surv>, Vec<u64>) {
    let mut state: u64 = 12345;
    let mut next = move || {
        state = (state * 1103515245 + 12345) % (1 << 31);
        state
    };
    let mut events = Vec::new();
    let mut weights = Vec::new();
    let mut exact: Vec<u64> = Vec::new();
    for _ in 0..60 {
        let kind = next() % 4;
        let t = next() % 50 + 1;
        if kind == 0 || kind == 1 || exact.is_empty() {
            events.push(Surv::new_event(1, 0, t));
            exact.push(t);
        } else if kind == 2 {
            events.push(Surv::new_censor(0, t));
        } else {
            let e = exact[(next() % exact.len() as u64) as usize];
            let lo = e.saturating_sub(next() % 10);
            let hi = e + next() % 10;
            let indicator = if next() % 2 != 0 { 0 } else { 1 };
            events.push(Surv::new(indicator, 0, lo, hi));
        }
        weights.push(next() % 5 + 1);
    }
    (events, weights)
}

#[test]
fn long_sample_with_weights() {
    let (events, weights) = long_sample();
    assert_eq!(events.len(), 60);
    assert_eq!(&weights[..8], &[5, 5, 1, 1, 1, 1, 1, 4]);
    let table = kaplan_meier(events, Some(weights)).unwrap().get_survival_table();
    let want: Vec<(u64, u64, u64)> = vec![
        (2, 981818181819, 0),
        (4, 975012461028, 0),
        (5, 926461884301, 0),
        (6, 912342302830, 0),
        (7, 884103139889, 0),
        (8, 869983558418, 0),
        (10, 862923767682, 0),
        (11, 854735828378, 0),
        (13, 846547889073, 0),
        (15, 813222512815, 0),
        (16, 757680219053, 0),
        (17, 733443581775, 0),
        (18, 709206944496, 0),
        (21, 641200183459, 0),
        (25, 593346560981, 0),
        (26, 548646321869, 0),
        (27, 510349202058, 0),
        (29, 453193361663, 0),
        (30, 413688604407, 0),
        (32, 383965467105, 0),
        (33, 354242329803, 0),
        (35, 283689367595, 0),
        (36, 231376472565, 0),
        (41, 222121413662, 0),
        (44, 196458072308, 0),
        (46, 88963050841, 0),
        (INFINITY, 0, 0),
    ];
    assert_eq!(table, want);
}

#[test]
fn long_sample_without_weights() {
    let (events, _) = long_sample();
    let table = kaplan_meier(events, None).unwrap().get_survival_table();
    let want: Vec<(u64, u64, u64)> = vec![
        (2, 966666666667, 0),
        (4, 944950200059, 0),
        (5, 894992320293, 0),
        (6, 876468902637, 0),
        (7, 857945484980, 0),
        (8, 839422067323, 0),
        (10, 820898649667, 0),
        (11, 799788983091, 0),
        (13, 778679316516, 0),
        (15, 745987165678, 0),
        (16, 713295014838, 0),
        (17, 691500247612, 0),
        (18, 669705480386, 0),
        (21, 604403580809, 0),
        (25, 576041789726, 0),
        (26, 550039153445, 0),
        (27, 516917208157, 0),
        (29, 472192725532, 0),
        (30, 429064225219, 0),
        (32, 375237010087, 0),
        (33, 348323402521, 0),
        (35, 303562737132, 0),
        (36, 264599260450, 0),
        (41, 240544782227, 0),
        (44, 192008874639, 0),
        (46, 62098344204, 0),
        (INFINITY, 0, 0),
    ];
    assert_eq!(table, want);
}
