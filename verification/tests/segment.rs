use position_share::Error;
use position_share::Segment;

#[test]
fn test_segment_split_at() {
    let data = [1, 2, 3, 4, 5, 6];
    let segment = Segment::try_from(&data[..]).unwrap();

    let (left, right) = segment.split_at(2);
    assert_eq!(left, Some(Segment::try_from(&data[..3]).unwrap()));
    assert_eq!(right, Some(Segment::try_from(&data[2..]).unwrap()));
}

#[test]
fn segment_needs_three_samples() {
    let data = [1, 2];
    assert_eq!(Segment::try_from(&data[..]), Err(Error::InsufficientPoints));
    let empty: [i32; 0] = [];
    assert_eq!(Segment::try_from(&empty[..]), Err(Error::InsufficientPoints));
    assert!(Segment::try_from(&[1, 2, 3][..]).is_ok());
}

#[test]
fn segment_accessors() {
    let data = [10, 20, 30, 40];
    let segment = Segment::try_from(&data[..]).unwrap();
    assert_eq!(*segment.start(), 10);
    assert_eq!(segment.middle(), &[20, 30]);
    assert_eq!(*segment.end(), 40);
    assert_eq!(segment.as_slice(), &data[..]);
}

#[test]
fn split_omits_a_side_without_interior() {
    let data = [1, 2, 3, 4];
    let segment = Segment::try_from(&data[..]).unwrap();
    // Splitting right after the start leaves the left side without an
    // interior point.
    let (left, right) = segment.split_at(1);
    assert_eq!(left, None);
    assert_eq!(right, Some(Segment::try_from(&data[1..]).unwrap()));
    // Splitting right before the end leaves the right side without one.
    let (left, right) = segment.split_at(2);
    assert_eq!(left, Some(Segment::try_from(&data[..3]).unwrap()));
    assert_eq!(right, None);
}
