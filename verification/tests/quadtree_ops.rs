use quadtree_sort::Circle;
use quadtree_sort::Point;
use quadtree_sort::QuadTree;
use quadtree_sort::Queryable;
use quadtree_sort::Rectangle;

fn sorted_pairs(points: Vec<Point>) -> Vec<(i32, i32)> {
    let mut pairs: Vec<(i32, i32)> = points.iter().map(|p| (p.x, p.y)).collect();
    pairs.sort_unstable();
    pairs
}

fn assert_same_contents<Q: Queryable>(qt: &QuadTree, shape: &Q, expected: &[Point], msg: &str) {
    let mut expected_pairs: Vec<(i32, i32)> = expected.iter().map(|p| (p.x, p.y)).collect();
    expected_pairs.sort_unstable();
    assert_eq!(sorted_pairs(qt.query(shape)), expected_pairs, "{}", msg);
}

#[test]
fn rect_contains() {
    let r = Rectangle::new(20000, 20000, 40000, 40000);
    assert!(r.contains(&Point::new(0, 0)), "0, 0");
    assert!(r.contains(&Point::new(0, 39000)), "0, 39");
    assert!(r.contains(&Point::new(39000, 0)), "39, 0");
    assert!(r.contains(&Point::new(20000, 20000)), "20, 20");
    assert!(!r.contains(&Point::new(0, 40001)), "0, 40.001");
    assert!(!r.contains(&Point::new(40001, 0)), "40.001, 0");
    assert!(!r.contains(&Point::new(40001, 40001)), "40.001, 40.001");
}

#[test]
fn rect() {
    let r = Rectangle::new(20000, 20000, 40000, 40000);
    assert_eq!(r.contains(&Point::new(0, 0)), true, "0.0, 0.0");
    assert_eq!(r.contains(&Point::new(20000, 20000)), true, "20.0, 20.0");
    assert_eq!(r.contains(&Point::new(39000, 39000)), true, "39.0, 39.0");
    assert_eq!(r.contains(&Point::new(39999, 39999)), true, "39.999, 39.999");
    assert_eq!(r.contains(&Point::new(40000, 40000)), true, "40.0, 40.0");
    assert_eq!(r.contains(&Point::new(41000, 41000)), false, "41.0, 41.0");
    assert_eq!(r.contains(&Point::new(50000, 20000)), false, "50.0, 20.0");
    assert_eq!(r.contains(&Point::new(20000, 50000)), false, "20.0, 50.0");
}

#[test]
fn qt_new() {
    let qt = QuadTree::new(Rectangle::new(20, 20, 40, 40));
    assert_eq!(qt.size(), 0);
}

#[test]
fn qt_with_capacity() {
    let qt = QuadTree::with_capacity(Rectangle::new(20, 20, 40, 40), 8);
    assert_eq!(qt.size(), 0);
}

#[test]
fn qt_contains() {
    let mut qt = QuadTree::new(Rectangle::new(20, 20, 40, 40));
    qt.insert(Point::new(10, 10));
    qt.insert(Point::new(20, 20));
    qt.insert(Point::new(30, 30));
    assert!(qt.contains(&Point::new(10, 10)));
    assert!(qt.contains(&Point::new(20, 20)));
    assert!(qt.contains(&Point::new(30, 30)));
    assert!(!qt.contains(&Point::new(25, 25)));
    assert!(!qt.contains(&Point::new(300, 300)));
    qt.remove(&Point::new(30, 30));
    assert!(!qt.contains(&Point::new(30, 30)));
    assert!(qt.contains(&Point::new(10, 10)));
    assert!(qt.contains(&Point::new(20, 20)));
}

#[test]
fn qt_insert() {
    let mut qt = QuadTree::new(Rectangle::new(20, 20, 40, 40));
    assert_eq!(qt.insert(Point::new(10, 10)), true);
    assert_eq!(qt.insert(Point::new(20, 20)), true);
    assert_eq!(qt.insert(Point::new(30, 30)), true);
    assert_eq!(qt.size(), 3);
    assert_eq!(qt.insert(Point::new(300, 300)), false);
    assert_eq!(qt.size(), 3);
    assert_eq!(qt.insert(Point::new(30, 30)), false);
    assert_eq!(qt.size(), 3);
}

#[test]
fn qt_remove() {
    let mut qt = QuadTree::new(Rectangle::new(20, 20, 40, 40));
    qt.insert(Point::new(10, 10));
    qt.insert(Point::new(20, 20));
    qt.insert(Point::new(30, 30));
    assert_eq!(qt.remove(&Point::new(25, 35)), false);
    assert_eq!(qt.size(), 3);
    assert_eq!(qt.remove(&Point::new(30, 30)), true);
    assert_eq!(qt.size(), 2);
    assert_eq!(qt.remove(&Point::new(30, 30)), false);
    assert_eq!(qt.size(), 2);
    assert_eq!(qt.remove(&Point::new(20, 20)), true);
    assert_eq!(qt.size(), 1);
    assert_eq!(qt.remove(&Point::new(10, 10)), true);
    assert_eq!(qt.size(), 0);
    assert_eq!(qt.remove(&Point::new(10, 10)), false);
    assert_eq!(qt.size(), 0);
}

#[test]
fn qt_query() {
    let mut qt = QuadTree::new(Rectangle::new(200, 200, 400, 400));

    let cluster_1 = vec![
        Point::new(100, 100),
        Point::new(80, 100),
        Point::new(120, 100),
        Point::new(100, 80),
        Point::new(100, 120),
    ];
    let cluster_2 = vec![
        Point::new(200, 200),
        Point::new(180, 200),
        Point::new(220, 200),
        Point::new(200, 180),
        Point::new(200, 220),
    ];
    let cluster_3 = vec![
        Point::new(300, 300),
        Point::new(280, 300),
        Point::new(320, 300),
        Point::new(300, 280),
        Point::new(300, 320),
    ];
    for p in cluster_1.iter().chain(cluster_2.iter()).chain(cluster_3.iter()) {
        qt.insert(*p);
    }

    let rect_1 = Rectangle::new(100, 100, 60, 60);
    let circle_1 = Circle::new(100, 100, 30);
    let rect_small_1 = Rectangle::new(100, 100, 10, 10);
    let circle_small_1 = Circle::new(100, 100, 5);

    let rect_2 = Rectangle::new(200, 200, 60, 60);
    let circle_2 = Circle::new(200, 200, 30);
    let rect_small_2 = Rectangle::new(200, 200, 10, 10);
    let circle_small_2 = Circle::new(200, 200, 5);

    let rect_3 = Rectangle::new(300, 300, 60, 60);
    let circle_3 = Circle::new(300, 300, 30);
    let rect_small_3 = Rectangle::new(300, 300, 10, 10);
    let circle_small_3 = Circle::new(300, 300, 5);

    assert_same_contents(&qt, &rect_1, &cluster_1, "rect_1, cluster_1");
    assert_same_contents(&qt, &circle_1, &cluster_1, "circle_1, cluster_1");
    assert_same_contents(&qt, &rect_small_1, &cluster_1[0..1], "rect_small_1, cluster_1[0]");
    assert_same_contents(&qt, &circle_small_1, &cluster_1[0..1], "circle_small_1, cluster_1[0]");

    assert_same_contents(&qt, &rect_2, &cluster_2, "rect_2, cluster_2");
    assert_same_contents(&qt, &circle_2, &cluster_2, "circle_2, cluster_2");
    assert_same_contents(&qt, &rect_small_2, &cluster_2[0..1], "rect_small_2, cluster_2[0]");
    assert_same_contents(&qt, &circle_small_2, &cluster_2[0..1], "circle_small_2, cluster_2[0]");

    assert_same_contents(&qt, &rect_3, &cluster_3, "rect_3, cluster_3");
    assert_same_contents(&qt, &circle_3, &cluster_3, "circle_3, cluster_3");
    assert_same_contents(&qt, &rect_small_3, &cluster_3[0..1], "rect_small_3, cluster_3[0]");
    assert_same_contents(&qt, &circle_small_3, &cluster_3[0..1], "circle_small_3, cluster_3[0]");

    assert_same_contents(&qt, &Rectangle::new(50, 50, 10, 10), &[], "5.0, 5.0, 1.0, 1.0");
}

#[test]
fn qt_query_far_empty() {
    let mut qt = QuadTree::new(Rectangle::new(20, 20, 40, 40));
    qt.insert(Point::new(10, 10));
    qt.insert(Point::new(20, 20));
    qt.insert(Point::new(30, 30));
    let far = Rectangle::new(5, 5, 1, 1);
    assert!(qt.query(&far).is_empty());
}

#[test]
fn qt_insert_many() {
    let mut qt = QuadTree::new(Rectangle::new(500, 500, 1000, 1000));
    let mut n = 0;
    for i in 0..20 {
        for j in 0..20 {
            assert!(qt.insert(Point::new(13 + i * 37, 17 + j * 41)));
            n += 1;
            assert_eq!(qt.size(), n);
        }
    }
    assert_eq!(qt.size(), 400);
    for i in 0..20 {
        for j in 0..20 {
            assert!(qt.contains(&Point::new(13 + i * 37, 17 + j * 41)));
        }
    }
    let everything = Rectangle::new(500, 500, 1000, 1000);
    assert_eq!(qt.query(&everything).len(), 400);
}

#[test]
fn qt_size_tracking() {
    let mut qt = QuadTree::new(Rectangle::new(50, 50, 100, 100));
    let points = vec![
        Point::new(10, 10),
        Point::new(20, 35),
        Point::new(35, 20),
        Point::new(60, 60),
        Point::new(80, 15),
        Point::new(15, 80),
        Point::new(90, 90),
    ];
    for (i, p) in points.iter().enumerate() {
        assert!(qt.insert(*p));
        assert_eq!(qt.size(), i + 1);
    }
    assert_eq!(qt.size(), points.len());
    assert!(qt.remove(&points[2]));
    assert!(qt.remove(&points[5]));
    assert_eq!(qt.size(), points.len() - 2);
    assert!(qt.insert(points[2]));
    assert_eq!(qt.size(), points.len() - 1);
    assert!(qt.contains(&points[2]));
    assert!(!qt.contains(&points[5]));
}

#[test]
fn qt_capacity_one_subdivides() {
    let mut qt = QuadTree::with_capacity(Rectangle::new(8, 8, 16, 16), 1);
    let points = [
        Point::new(1, 1),
        Point::new(2, 1),
        Point::new(1, 2),
        Point::new(15, 15),
        Point::new(8, 8),
        Point::new(9, 8),
        Point::new(0, 16),
        Point::new(16, 0),
        Point::new(3, 3),
        Point::new(4, 4),
    ];
    for (i, p) in points.iter().enumerate() {
        assert!(qt.insert(*p), "insert {}", i);
        assert_eq!(qt.size(), i + 1);
    }
    for p in points.iter() {
        assert!(qt.contains(p));
    }
    let everything = Rectangle::new(8, 8, 16, 16);
    assert_eq!(sorted_pairs(qt.query(&everything)), sorted_pairs(points.to_vec()));
}

#[test]
fn qt_insert_twice() {
    let mut qt = QuadTree::new(Rectangle::new(50, 50, 100, 100));
    let before = qt.size();
    assert_eq!(qt.insert(Point::new(42, 17)), true);
    assert_eq!(qt.insert(Point::new(42, 17)), false);
    assert_eq!(qt.size(), before + 1);
}
