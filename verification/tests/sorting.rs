use quadtree_sort::BitPoint;
use quadtree_sort::Coord;
use quadtree_sort::Point;
use quadtree_sort::sort;
use quadtree_sort::sort_by_distance_2d;

#[test]
fn basic() {
    let sorted = sort_by_distance_2d(
        vec![
            Point::new(0, 0),
            Point::new(3, 3),
            Point::new(1, 1),
            Point::new(4, 4),
            Point::new(2, 2),
        ],
        6,
        6,
        2,
    );
    let ordered = vec![
        Point::new(0, 0),
        Point::new(1, 1),
        Point::new(2, 2),
        Point::new(3, 3),
        Point::new(4, 4),
    ];
    assert_eq!(sorted, ordered);
}

#[test]
fn short_inputs_come_back_unchanged() {
    let empty: Vec<Point> = vec![];
    assert_eq!(sort_by_distance_2d(empty.clone(), 6, 6, 2), empty);
    let one = vec![Point::new(3, 4)];
    assert_eq!(sort_by_distance_2d(one.clone(), 6, 6, 2), one);
    let two = vec![Point::new(5, 5), Point::new(1, 1)];
    assert_eq!(sort_by_distance_2d(two.clone(), 6, 6, 2), two);
}

#[test]
fn duplicate_points_are_dropped() {
    let sorted = sort_by_distance_2d(
        vec![Point::new(0, 0), Point::new(0, 0), Point::new(1, 1), Point::new(2, 2)],
        6,
        6,
        2,
    );
    assert_eq!(sorted, vec![Point::new(0, 0), Point::new(1, 1), Point::new(2, 2)]);
}

#[test]
fn out_of_bounds_points_are_dropped() {
    let sorted = sort_by_distance_2d(
        vec![Point::new(0, 0), Point::new(50, 50), Point::new(1, 1), Point::new(2, 2)],
        6,
        6,
        2,
    );
    assert_eq!(sorted, vec![Point::new(0, 0), Point::new(1, 1), Point::new(2, 2)]);
}

#[test]
fn greedy_takes_window_candidate_not_global_nearest() {
    // from (0, 0) the first non-empty window (half-side 3) holds (3, 3) at
    // squared distance 18 but not (4, 0) at squared distance 16
    let sorted = sort_by_distance_2d(
        vec![Point::new(0, 0), Point::new(3, 3), Point::new(4, 0)],
        20,
        20,
        3,
    );
    assert_eq!(sorted, vec![Point::new(0, 0), Point::new(3, 3), Point::new(4, 0)]);
}

#[test]
fn sort_words_orders_packed_points() {
    let coords = [(0, 0), (3, 3), (1, 1), (4, 4), (2, 2)];
    let words: Vec<u32> = coords.iter().map(|&(x, y)| BitPoint::new(x, y).to_raw()).collect();
    let out = sort(&words, 6, 6, 2);
    let decoded: Vec<(i32, i32)> =
        out.iter().map(|&w| (BitPoint::from_raw(w).x(), BitPoint::from_raw(w).y())).collect();
    assert_eq!(decoded, vec![(0, 0), (1, 1), (2, 2), (3, 3), (4, 4)]);
}

#[test]
fn sort_words_short_input_is_repacked_unchanged() {
    let words: Vec<u32> =
        vec![BitPoint::new(2, 1).to_raw(), BitPoint::new(0, 0).to_raw()];
    let out = sort(&words, 6, 6, 2);
    assert_eq!(out, words);
}

#[test]
fn sort_many_points_is_permutation() {
    // a simple linear congruential generator stands in for random input
    let mut state: u64 = 0x9E37_79B9_7F4A_7C15;
    let mut next = move || {
        state = state.wrapping_mul(6364136223846793005).wrapping_add(1442695040888963407);
        (state >> 33) as i32
    };
    let mut points: Vec<Point> = Vec::new();
    while points.len() < 60 {
        let p = Point::new(next() % 1000, next() % 1000);
        if !points.contains(&p) {
            points.push(p);
        }
    }
    let sorted = sort_by_distance_2d(points.clone(), 1000, 1000, 8);
    assert_eq!(sorted.len(), points.len());
    assert_eq!(sorted[0], points[0]);
    let mut expected: Vec<(i32, i32)> = points.iter().map(|p| (p.x, p.y)).collect();
    let mut got: Vec<(i32, i32)> = sorted.iter().map(|p| (p.x, p.y)).collect();
    expected.sort_unstable();
    got.sort_unstable();
    assert_eq!(got, expected);
}

#[test]
fn sort_starts_at_first_point() {
    let sorted = sort_by_distance_2d(
        vec![Point::new(4, 4), Point::new(0, 0), Point::new(1, 1), Point::new(3, 3)],
        6,
        6,
        2,
    );
    assert_eq!(sorted[0], Point::new(4, 4));
    assert_eq!(sorted.len(), 4);
}
