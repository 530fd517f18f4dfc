use position_share::Error;
use position_share::Probability;

#[test]
fn complement_extremes() {
    assert_eq!(Probability::one_hundred().complement(), Probability::zero());
    assert_eq!(Probability::zero().complement(), Probability::one_hundred());
}

#[test]
fn complement_involution() {
    let p = Probability::new(123456789);
    assert_eq!(p.complement().complement(), p);
}

#[test]
fn centipercent_round_trip() {
    for cp in [0u32, 1, 99, 1234, 5000, 9999, 10000] {
        let p = Probability::from_centipercent(cp).unwrap();
        assert_eq!(p.to_centipercent(), cp);
    }
}

#[test]
fn centipercent_range_error() {
    assert_eq!(Probability::from_centipercent(10001), Err(Error::RangeError));
    assert_eq!(Probability::from_centipercent(u32::MAX), Err(Error::RangeError));
}

#[test]
fn centipercent_extremes_are_exact() {
    assert_eq!(
        Probability::from_centipercent(10000).unwrap(),
        Probability::one_hundred()
    );
    assert_eq!(Probability::from_centipercent(0).unwrap(), Probability::zero());
}

#[test]
fn ordering_follows_value() {
    assert!(Probability::new(1) > Probability::zero());
    assert!(Probability::new(7) < Probability::new(8));
    assert_eq!(Probability::new(5), Probability::new(5));
}

#[test]
fn scale_halves() {
    let half = Probability::new(u32::MAX / 2);
    assert_eq!(half.scale(1000), 499);
    assert_eq!(Probability::one_hundred().scale(1000), 1000);
    assert_eq!(Probability::zero().scale(1000), 0);
}
