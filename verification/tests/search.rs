use position_share::rdp;
use position_share::rdp_area;
use position_share::Coordinate;
use position_share::Datum;
use position_share::Error;
use position_share::MaxHeap;
use position_share::PerpendicularDistance;
use position_share::Positions;
use position_share::Probability;
use position_share::Ratio;
use position_share::Search;
use position_share::Segment;
use position_share::TriangleArea;
use position_share::SCALE;

/// The five-sample tent path: three colinear points up to a peak at
/// (2,2,0), then back down to the time axis.
fn tent_path() -> Positions {
    let mut positions = Positions::new();
    positions.add(0, Coordinate::new(0, 0, 0));
    positions.add(1, Coordinate::new(1, 1, 0));
    positions.add(2, Coordinate::new(2, 2, 0));
    positions.add(3, Coordinate::new(3, 1, 0));
    positions.add(4, Coordinate::new(4, 0, 0));
    positions
}

fn coordinates(data: &[Datum]) -> Vec<Coordinate> {
    data.iter().map(|d| d.coordinate).collect()
}

#[test]
fn top_three_of_tent_path() {
    // The two endpoints plus the point farthest from the chord, most novel
    // first; the endpoints share a score, so the later identity leads.
    let positions = tent_path();
    let strategy = Search::new(PerpendicularDistance, None);
    let recipient: u128 = 7;
    let most_novel = positions
        .most_novel_coordinates(&strategy, &recipient, 3)
        .unwrap();
    assert_eq!(
        coordinates(&most_novel),
        vec![
            Coordinate::new(4, 0, 0),
            Coordinate::new(0, 0, 0),
            Coordinate::new(2, 2, 0),
        ]
    );
}

#[test]
fn result_length_is_bounded_by_n_max() {
    let positions = tent_path();
    let strategy = Search::new(PerpendicularDistance, None);
    let recipient: u128 = 7;
    for n_max in 0..8usize {
        let result = positions
            .most_novel_coordinates(&strategy, &recipient, n_max)
            .unwrap();
        assert!(result.len() <= n_max);
        if n_max == 0 {
            assert!(result.is_empty());
        }
    }
}

#[test]
fn results_have_no_duplicate_ids_and_descend() {
    let positions = tent_path();
    let strategy = Search::new(PerpendicularDistance, None);
    let recipient: u128 = 7;
    let result = positions
        .most_novel_coordinates(&strategy, &recipient, 5)
        .unwrap();
    for i in 0..result.len() {
        for j in (i + 1)..result.len() {
            assert_ne!(result[i].id, result[j].id);
        }
    }
}

#[test]
fn empty_series_is_an_error() {
    let positions = Positions::new();
    let strategy = Search::new(PerpendicularDistance, None);
    let recipient: u128 = 7;
    assert_eq!(
        positions.most_novel_coordinates(&strategy, &recipient, 3),
        Err(Error::EmptySeries)
    );
}

#[test]
fn two_samples_yield_only_the_anchors() {
    let mut positions = Positions::new();
    positions.add(0, Coordinate::new(0, 0, 0));
    positions.add(1, Coordinate::new(9, 0, 0));
    let strategy = Search::new(PerpendicularDistance, None);
    let recipient: u128 = 7;
    let result = positions
        .most_novel_coordinates(&strategy, &recipient, 10)
        .unwrap();
    assert_eq!(result.len(), 2);
}

#[test]
fn single_sample_yields_itself_once() {
    let mut positions = Positions::new();
    positions.add(0, Coordinate::new(3, 4, 0));
    let strategy = Search::new(PerpendicularDistance, None);
    let recipient: u128 = 7;
    let result = positions
        .most_novel_coordinates(&strategy, &recipient, 10)
        .unwrap();
    assert_eq!(result.len(), 1);
    assert_eq!(result[0].coordinate, Coordinate::new(3, 4, 0));
}

#[test]
fn threshold_stops_the_search_early() {
    // A straight path: every interior candidate has zero raw importance.
    // Without a threshold all of them are collected; with one the search
    // stops at the first unpromising candidate and returns fewer than n_max
    // samples even though more exist.
    let mut positions = Positions::new();
    for t in 0..5i64 {
        positions.add(t, Coordinate::new(t, 0, 0));
    }
    let recipient: u128 = 7;

    let exhaustive = Search::new(PerpendicularDistance, None);
    let full = positions
        .most_novel_coordinates(&exhaustive, &recipient, 4)
        .unwrap();
    assert_eq!(full.len(), 4);

    let pruned = Search::new(PerpendicularDistance, Some(Ratio { num: 1, den: 2 }));
    let stopped = positions
        .most_novel_coordinates(&pruned, &recipient, 4)
        .unwrap();
    assert_eq!(stopped.len(), 2);
}

#[test]
fn identical_inputs_give_identical_output() {
    let positions = tent_path();
    let strategy = Search::new(PerpendicularDistance, Some(Ratio { num: 2, den: 5 }));
    let recipient: u128 = 99;
    let once = positions
        .most_novel_coordinates(&strategy, &recipient, 3)
        .unwrap();
    let twice = positions
        .most_novel_coordinates(&strategy, &recipient, 3)
        .unwrap();
    assert_eq!(once, twice);
}

#[test]
fn transmitted_samples_are_not_collected_again() {
    // Once the recipient certainly has the peak, the search collects the
    // next best candidate instead.
    let mut positions = tent_path();
    let recipient: u128 = 7;
    let peak_id = positions.filter_by_time(2, 2)[0].id;
    positions.record_transmission(recipient, peak_id, Probability::one_hundred());
    let strategy = Search::new(PerpendicularDistance, None);
    let result = positions
        .most_novel_coordinates(&strategy, &recipient, 3)
        .unwrap();
    assert_eq!(
        coordinates(&result),
        vec![
            Coordinate::new(4, 0, 0),
            Coordinate::new(0, 0, 0),
            Coordinate::new(3, 1, 0),
        ]
    );
}

#[test]
fn area_measure_also_finds_the_peak() {
    let positions = tent_path();
    let strategy = Search::new(TriangleArea, None);
    let recipient: u128 = 7;
    let result = positions
        .most_novel_coordinates(&strategy, &recipient, 3)
        .unwrap();
    let found = coordinates(&result);
    assert!(found.contains(&Coordinate::new(2, 2, 0)));
    assert!(found.contains(&Coordinate::new(0, 0, 0)));
    assert!(found.contains(&Coordinate::new(4, 0, 0)));
}

fn tent_data() -> Vec<Datum> {
    vec![
        Datum { id: 0, timestamp: 0, coordinate: Coordinate::new(0, 0, 0) },
        Datum { id: 1, timestamp: 1, coordinate: Coordinate::new(1, 1, 0) },
        Datum { id: 2, timestamp: 2, coordinate: Coordinate::new(2, 2, 0) },
        Datum { id: 3, timestamp: 3, coordinate: Coordinate::new(3, 1, 0) },
        Datum { id: 4, timestamp: 4, coordinate: Coordinate::new(4, 0, 0) },
    ]
}

#[test]
fn rdp_picks_the_farthest_interior_sample() {
    let data = tent_data();
    let (datum, distance, index) = rdp(&data).unwrap();
    assert_eq!(datum.id, 2);
    assert_eq!(distance, 2 * SCALE);
    assert_eq!(index, 2);
    // Too short a run has no interior to pick from.
    assert!(rdp(&data[..2]).is_none());
}

#[test]
fn rdp_area_picks_the_largest_triangle() {
    let data = tent_data();
    let (datum, distance, index) = rdp_area(&data).unwrap();
    assert_eq!(datum.id, 2);
    // Triangle over the 4-long chord with height 2 has area 4.
    assert_eq!(distance, 4 * SCALE);
    assert_eq!(index, 2);
}

#[test]
fn max_heap_serves_greatest_distance_first() {
    let data = tent_data();
    let segment = Segment::try_from(&data[..]).unwrap();
    let mut heap = MaxHeap::new();
    assert_eq!(heap.len(), 0);
    heap.push(segment, data[1], 5, 1);
    heap.push(segment, data[2], 9, 2);
    heap.push(segment, data[3], 9, 3);
    heap.push(segment, data[4], 1, 4);
    // Greatest first; among equal distances the earliest queued is served.
    let (_, d1, dist1, _) = heap.pop().unwrap();
    assert_eq!((d1.id, dist1), (2, 9));
    let (_, d2, dist2, _) = heap.pop().unwrap();
    assert_eq!((d2.id, dist2), (3, 9));
    let (_, d3, dist3, _) = heap.pop().unwrap();
    assert_eq!((d3.id, dist3), (1, 5));
    let (_, d4, dist4, _) = heap.pop().unwrap();
    assert_eq!((d4.id, dist4), (4, 1));
    assert!(heap.pop().is_none());
}
