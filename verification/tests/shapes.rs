use quadtree_sort::Circle;
use quadtree_sort::Point;
use quadtree_sort::Quadrant;
use quadtree_sort::QuadTree;
use quadtree_sort::Queryable;
use quadtree_sort::Rectangle;

#[test]
fn rect_covers_center_and_corners() {
    let cases = [(20, 20, 40, 40), (0, 0, 10, 6), (-5, 7, 13, 1), (3, 3, 0, 0)];
    for (x, y, w, h) in cases {
        let r = Rectangle::new(x, y, w, h);
        assert!(r.contains(&Point::new(x as i32, y as i32)), "center of {:?}", (x, y, w, h));
        assert!(
            r.contains(&Point::new((x - w / 2) as i32, (y - h / 2) as i32)),
            "left top of {:?}",
            (x, y, w, h)
        );
        assert!(
            r.contains(&Point::new((x + w / 2) as i32, (y + h / 2) as i32)),
            "right bottom of {:?}",
            (x, y, w, h)
        );
    }
}

#[test]
fn subdivide_covers_the_parent() {
    let parent = Rectangle::new(20, 20, 41, 37);
    let ne = parent.subdivide(&Quadrant::NorthEast);
    let nw = parent.subdivide(&Quadrant::NorthWest);
    let se = parent.subdivide(&Quadrant::SouthEast);
    let sw = parent.subdivide(&Quadrant::SouthWest);
    for px in -1..43 {
        for py in -1..40 {
            let p = Point::new(px, py);
            let in_parent = parent.contains(&p);
            let in_children =
                ne.contains(&p) || nw.contains(&p) || se.contains(&p) || sw.contains(&p);
            assert_eq!(in_parent, in_children, "at ({}, {})", px, py);
        }
    }
}

#[test]
fn circle_contains_is_squared_distance() {
    let c = Circle::new(10, 10, 5);
    assert!(c.contains(&Point::new(10, 10)));
    assert!(c.contains(&Point::new(13, 14)));
    assert!(c.contains(&Point::new(15, 10)));
    assert!(!c.contains(&Point::new(14, 14)));
    assert!(!c.contains(&Point::new(16, 10)));
}

fn brute_force_meets(cx: i64, cy: i64, r: i64, rect: &Rectangle, left: i64, right: i64, top: i64, bottom: i64) -> bool {
    let mut hit = false;
    for px in left..=right {
        for py in top..=bottom {
            let p = Point::new(px as i32, py as i32);
            if !rect.contains(&p) {
                continue;
            }
            let dx = cx - px;
            let dy = cy - py;
            if dx * dx + dy * dy <= r * r {
                hit = true;
            }
        }
    }
    hit
}

#[test]
fn circle_intersects_agrees_with_brute_force() {
    // a simple linear congruential generator stands in for random pairs
    let mut state: u64 = 0x2545_F491_4F6C_DD1D;
    let mut next = move || {
        state = state.wrapping_mul(6364136223846793005).wrapping_add(1442695040888963407);
        (state >> 33) as i64
    };
    for case in 0..200 {
        let cx = next() % 30 - 15;
        let cy = next() % 30 - 15;
        let r = next() % 16;
        let rx = next() % 30 - 15;
        let ry = next() % 30 - 15;
        let w = next() % 20;
        let h = next() % 20;
        let circle = Circle::new(cx, cy, r);
        let rect = Rectangle::new(rx, ry, w, h);
        let expected = brute_force_meets(
            cx,
            cy,
            r,
            &rect,
            rx - w / 2,
            rx + w / 2,
            ry - h / 2,
            ry + h / 2,
        );
        assert_eq!(circle.intersects(&rect), expected, "case {}: {:?}", case, (cx, cy, r, rx, ry, w, h));
    }
}

#[test]
fn circle_touching_rectangle_edge_intersects() {
    // the nearest rectangle point (5, 0) lies exactly on the circle
    let c = Circle::new(0, 0, 5);
    let touching = Rectangle::new(7, 0, 4, 4);
    assert!(c.intersects(&touching));
    let apart = Rectangle::new(8, 0, 4, 4);
    assert!(!c.intersects(&apart));
    // circle fully inside a large rectangle
    let around = Rectangle::new(0, 0, 100, 100);
    assert!(c.intersects(&around));
    // rectangle fully inside the circle
    let inside = Rectangle::new(0, 0, 2, 2);
    assert!(c.intersects(&inside));
}

#[test]
fn circle_query_matches_rect_query_on_diagonal() {
    let mut qt = QuadTree::new(Rectangle::new(50, 50, 100, 100));
    for i in 0..10 {
        qt.insert(Point::new(i * 10, i * 10));
    }
    let c = Circle::new(50, 50, 15);
    let found = qt.query(&c);
    assert_eq!(found.len(), 3);
    for p in found {
        let dx = (p.x - 50) as i64;
        let dy = (p.y - 50) as i64;
        assert!(dx * dx + dy * dy <= 225);
    }
}
