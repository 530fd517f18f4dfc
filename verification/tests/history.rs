use position_share::Probability;
use position_share::TransmissionHistory;

#[test]
fn unrecorded_pairs_are_exactly_zero() {
    let history = TransmissionHistory::new();
    for recipient in [0u128, 1, u128::MAX] {
        for datum_id in [0u64, 7, u64::MAX] {
            assert_eq!(
                history.probability_recipient_has_datum(&recipient, &datum_id),
                Probability::zero()
            );
        }
    }
}

#[test]
fn recording_touches_only_the_recorded_pair() {
    let mut history = TransmissionHistory::new();
    let p = Probability::new(12345);
    history.record(1, 100, p);
    assert_eq!(history.probability_recipient_has_datum(&1, &100), p);
    // Same recipient, other sample: still never recorded.
    assert_eq!(
        history.probability_recipient_has_datum(&1, &101),
        Probability::zero()
    );
    // Other recipient, same sample: still never recorded.
    assert_eq!(
        history.probability_recipient_has_datum(&2, &100),
        Probability::zero()
    );
}

#[test]
fn later_records_supersede_earlier_ones() {
    let mut history = TransmissionHistory::new();
    history.record(1, 100, Probability::new(10));
    history.record(1, 100, Probability::new(20));
    assert_eq!(
        history.probability_recipient_has_datum(&1, &100),
        Probability::new(20)
    );
}
