use position_share::Novelty;
use position_share::Probability;

#[test]
fn novelty_compare() {
    let a = Novelty {
        distance: 2,
        probability_not_transmitted: Probability::one_hundred(),
        id: 10,
    };
    let b = Novelty {
        distance: 1,
        probability_not_transmitted: Probability::one_hundred(),
        id: 11,
    };
    assert!(b.lt(&a));
    assert!(!a.lt(&b));
}

#[test]
fn search_strategy_compare() {
    // The search module's novelty ranking agrees: greater raw distance at
    // equal probability ranks strictly higher.
    let a = Novelty {
        distance: 2,
        probability_not_transmitted: Probability::one_hundred(),
        id: 20,
    };
    let b = Novelty {
        distance: 1,
        probability_not_transmitted: Probability::one_hundred(),
        id: 21,
    };
    assert!(b.lt(&a));
}

#[test]
fn score_is_distance_times_probability_magnitude() {
    let n = Novelty {
        distance: 2,
        probability_not_transmitted: Probability::one_hundred(),
        id: 0,
    };
    assert_eq!(n.score(), 2 * u32::MAX as u128);
    let zero = Novelty {
        distance: 2,
        probability_not_transmitted: Probability::zero(),
        id: 0,
    };
    assert_eq!(zero.score(), 0);
}

#[test]
fn ties_fall_through_to_probability_then_id() {
    // Equal scores of zero: the probability decides.
    let low_p = Novelty {
        distance: 0,
        probability_not_transmitted: Probability::new(5),
        id: 9,
    };
    let high_p = Novelty {
        distance: 0,
        probability_not_transmitted: Probability::new(6),
        id: 3,
    };
    assert!(low_p.lt(&high_p));
    // Equal scores and probabilities: the identity decides.
    let small_id = Novelty {
        distance: 0,
        probability_not_transmitted: Probability::new(5),
        id: 3,
    };
    assert!(small_id.lt(&low_p));
    assert!(small_id.ties_with(&small_id));
}
