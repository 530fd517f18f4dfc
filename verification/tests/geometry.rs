use position_share::distance_from_line;
use position_share::triangle_area;
use position_share::Coordinate;
use position_share::Vector;
use position_share::SCALE;

#[test]
fn test_cross_product() {
    let v1 = Vector::new(1, 2, 3);
    let v2 = Vector::new(4, 5, 6);
    let expected = Vector::new(-3, 6, -3);
    assert_eq!(v1.cross_product(&v2), expected);
}

#[test]
fn test_magnitude() {
    let v = Vector::new(3, 4, 0);
    assert_eq!(v.magnitude(), 5 * SCALE);
}

#[test]
fn test_distance_from_line() {
    let start = Coordinate::new(0, 0, 0);
    let end = Coordinate::new(2, 2, 2);
    let coordinate = Coordinate::new(1, 1, 1);
    assert_eq!(distance_from_line(&start, &end, &coordinate), 0);
}

#[test]
fn test_distance_from_line2() {
    let start = Coordinate::new(0, 0, 0);
    let end = Coordinate::new(4, 0, 0);
    let coordinate = Coordinate::new(2, 2, 0);
    assert_eq!(distance_from_line(&start, &end, &coordinate), 2 * SCALE);
}

#[test]
fn triangle_area_of_colinear_points_is_zero() {
    let a = Coordinate::new(0, 0, 0);
    let b = Coordinate::new(1, 1, 0);
    let c = Coordinate::new(2, 2, 0);
    assert_eq!(triangle_area(&a, &b, &c), 0);
}

#[test]
fn triangle_area_exact() {
    // A right triangle with legs 4 and 3 has area 6.
    let a = Coordinate::new(0, 0, 0);
    let b = Coordinate::new(4, 0, 0);
    let c = Coordinate::new(0, 3, 0);
    assert_eq!(triangle_area(&a, &b, &c), 6 * SCALE);
}

#[test]
fn degenerate_chord_measures_distance_to_anchor() {
    // With coincident anchors there is no line; the measure falls back to
    // the distance from the candidate to the anchor point.
    let anchor = Coordinate::new(1, 1, 0);
    let candidate = Coordinate::new(4, 5, 0);
    assert_eq!(distance_from_line(&anchor, &anchor, &candidate), 5 * SCALE);
}

#[test]
fn subtraction_gives_displacement() {
    let a = Coordinate::new(5, 7, -2);
    let b = Coordinate::new(1, 2, 3);
    assert_eq!(a.minus(&b), Vector::new(4, 5, -5));
}
