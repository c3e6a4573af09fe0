mod coord;
mod quadtree;

pub use coord::BitPoint;
pub use coord::Coord;
pub use coord::Point;
pub use coord::decode_x;
pub use coord::decode_y;
pub use coord::encode_coord;
pub use coord::lemma_encode_decode;
pub use coord::word_of;
pub use quadtree::CAPACITY;
pub use quadtree::Circle;
pub use quadtree::Node;
pub use quadtree::Quadrant;
pub use quadtree::QuadTree;
pub use quadtree::Queryable;
pub use quadtree::Rectangle;
pub use quadtree::SPACE_BOUND;
pub use quadtree::clamp;
pub use quadtree::lemma_circle_reaches_iff_covered_point;
pub use quadtree::lemma_rect_covers_center_and_corners;
pub use quadtree::lemma_size_under_insert_remove;
pub use quadtree::lemma_tree_invariants;
pub use quadtree::shape_matches;
pub use quadtree::sq;

use vstd::arithmetic::power2::pow2;
use vstd::multiset::Multiset;
use vstd::prelude::*;

verus! {

broadcast use {vstd::multiset::group_multiset_axioms, vstd::seq_lib::group_to_multiset_ensures};

/// Upper limit on the boundary extents and the initial search radius that
/// the sequencer accepts; far below `SPACE_BOUND`, so that the expanding
/// search window always stays a well-formed rectangle.
pub const DIMENSION_LIMIT: i64 = 0x100_0000_0000;

/// Once the search radius reaches this value, the square window around any
/// point with 32-bit coordinates spans the whole root boundary, so the next
/// query returns every remaining point.
pub const WINDOW_LIMIT: i64 = 0x400_0000_0000;

/// The squared Euclidean distance between two coordinate pairs.
pub open spec fn spec_sq_dist(a: Point, b: Point) -> int {
    sq(b.x - a.x) + sq(b.y - a.y)
}

/// The point lies in the root boundary that the sequencer builds over an
/// area of `w` by `h`: the rectangle centered at `(w/2, h/2)`.
pub open spec fn within_bounds(p: Point, w: int, h: int) -> bool {
    &&& 0 <= p.x <= w / 2 + w / 2
    &&& 0 <= p.y <= h / 2 + h / 2
}

/// The points that survive inserting a sequence into a fresh tree over a
/// `w` by `h` boundary: each in-bounds point once, no matter how often it
/// occurs; out-of-bounds points and repeated coordinates are dropped.
pub open spec fn kept_mset(points: Seq<Point>, w: int, h: int) -> Multiset<Point>
    decreases points.len(),
{
    if points.len() == 0 {
        Multiset::empty()
    } else {
        let rest = kept_mset(points.drop_last(), w, h);
        let p = points.last();
        if within_bounds(p, w, h) && !points.drop_last().contains(p) {
            rest.insert(p)
        } else {
            rest
        }
    }
}

/// A sequence's kept multiset holds each in-bounds member of the sequence
/// exactly once and nothing else.
pub proof fn lemma_kept_mset_count(points: Seq<Point>, w: int, h: int, p: Point)
    ensures
        kept_mset(points, w, h).count(p) == if points.contains(p) && within_bounds(p, w, h) {
            1int
        } else {
            0int
        },
    decreases points.len(),
{
    if points.len() == 0 {
        assert(!points.contains(p));
    } else {
        let head = points.drop_last();
        lemma_kept_mset_count(head, w, h, p);
        assert(points.contains(p) <==> head.contains(p) || points.last() == p) by {
            if points.contains(p) {
                let i = choose|i: int| 0 <= i < points.len() && points[i] == p;
                if i < points.len() - 1 {
                    assert(head[i] == p);
                }
            }
            if head.contains(p) {
                let i = choose|i: int| 0 <= i < head.len() && head[i] == p;
                assert(points[i] == p);
            }
        }
    }
}

/// A sequence's kept multiset is never larger than the sequence.
pub proof fn lemma_kept_len(points: Seq<Point>, w: int, h: int)
    ensures
        kept_mset(points, w, h).len() <= points.len(),
    decreases points.len(),
{
    if points.len() > 0 {
        lemma_kept_len(points.drop_last(), w, h);
    }
}

/// With pairwise distinct, in-bounds points, nothing is dropped: the kept
/// multiset is exactly the input multiset. Together with the contract of
/// `sort_by_distance_2d`, this says that the sequencer permutes such inputs.
pub proof fn lemma_kept_of_distinct_in_bounds(points: Seq<Point>, w: int, h: int)
    requires
        forall|i: int| 0 <= i < points.len() ==> within_bounds(#[trigger] points[i], w, h),
        forall|i: int, j: int| 0 <= i < j < points.len() ==> points[i] != points[j],
    ensures
        kept_mset(points, w, h) =~= points.to_multiset(),
    decreases points.len(),
{
    if points.len() == 0 {
        assert(points.to_multiset() =~= Multiset::empty()) by {
            points.to_multiset_ensures();
            assert(points =~= Seq::<Point>::empty());
        }
    } else {
        let head = points.drop_last();
        let p = points.last();
        lemma_kept_of_distinct_in_bounds(head, w, h);
        assert(!head.contains(p)) by {
            if head.contains(p) {
                let i = choose|i: int| 0 <= i < head.len() && head[i] == p;
                assert(points[i] == points[points.len() - 1]);
            }
        }
        assert(points =~= head.push(p));
        assert(points.to_multiset() =~= head.to_multiset().insert(p));
    }
}

/// The square window centered at `c` with half-side `r` covers the point.
pub open spec fn within_window(c: Point, r: int, q: Point) -> bool {
    &&& c.x - r <= q.x <= c.x + r
    &&& c.y - r <= q.y <= c.y + r
}

/// The points of `m` inside the square window of half-side `r` around `c`.
pub open spec fn window_set(c: Point, r: int, m: Multiset<Point>) -> Multiset<Point> {
    m.filter(|q: Point| within_window(c, r, q))
}

/// One step of the greedy traversal: `next` is a candidate of the first
/// non-empty query among the square windows of half-sides `r0`, `2*r0`,
/// `4*r0`, ... around `c` over the remaining points `rem`, and no candidate
/// of that query is strictly closer to `c` than `next`.
pub open spec fn greedy_step(c: Point, next: Point, rem: Multiset<Point>, r0: int) -> bool {
    exists|k: nat|
        #![trigger pow2(k)]
        {
            &&& window_set(c, r0 * pow2(k), rem).count(next) > 0
            &&& (forall|q: Point|
                window_set(c, r0 * pow2(k), rem).count(q) > 0 ==> spec_sq_dist(c, next)
                    <= spec_sq_dist(c, q))
            &&& (forall|j: nat| j < k ==> window_set(c, r0 * pow2(j), rem).len() == 0)
        }
}

/// What the sequencer returns for more than two points: one entry per kept
/// point, starting at the first input point; a permutation of the kept
/// points whenever the first point is in bounds (otherwise one kept point
/// gives its place up to the out-of-bounds first point); and every
/// transition a greedy nearest-neighbor step over what then remains.
pub open spec fn tour_output(
    points: Seq<Point>,
    w: int,
    h: int,
    r0: int,
    sorted: Seq<Point>,
) -> bool {
    let kept = kept_mset(points, w, h);
    &&& sorted.len() == kept.len()
    &&& sorted[0] == points[0]
    &&& (within_bounds(points[0], w, h) ==> sorted.to_multiset() == kept)
    &&& (!within_bounds(points[0], w, h) ==> exists|q: Point|
        kept.count(q) == 1 && sorted.to_multiset() == kept.remove(q).insert(points[0]))
    &&& (forall|i: int|
        0 <= i < sorted.len() - 1 ==> greedy_step(
            #[trigger] sorted[i],
            sorted[i + 1],
            kept.sub(sorted.subrange(0, i + 1).to_multiset()),
            r0,
        ))
}

/// Squared distances between points with 32-bit coordinates stay far below
/// the largest 128-bit value.
proof fn lemma_sq_dist_bound(a: Point, b: Point)
    ensures
        0 <= spec_sq_dist(a, b) < u128::MAX,
{
    assert(sq(b.x - a.x) >= 0 && sq(b.x - a.x) <= 0x1_0000_0000_0000_0000int) by (nonlinear_arith)
        requires
            -0x1_0000_0000 <= b.x - a.x <= 0x1_0000_0000,
    ;
    assert(sq(b.y - a.y) >= 0 && sq(b.y - a.y) <= 0x1_0000_0000_0000_0000int) by (nonlinear_arith)
        requires
            -0x1_0000_0000 <= b.y - a.y <= 0x1_0000_0000,
    ;
}

/// Finds the greedy successor of `point` among the points still in the
/// tree: queries a square window around `point`, doubling its half-side
/// from `initial_search_radius` until some point appears, then picks a
/// candidate at the smallest squared distance, first seen winning ties.
#[verifier::loop_isolation(false)]
#[verifier::rlimit(60)]
fn nearest_remaining(
    qt: &QuadTree,
    point: Point,
    initial_search_radius: i64,
    w: i64,
    h: i64,
) -> (closest: Point)
    requires
        qt.well_formed(),
        qt@.len() >= 1,
        forall|q: Point| qt@.count(q) > 0 ==> within_bounds(q, w as int, h as int),
        0 <= w <= DIMENSION_LIMIT,
        0 <= h <= DIMENSION_LIMIT,
        1 <= initial_search_radius <= DIMENSION_LIMIT,
    ensures
        qt@.count(closest) > 0,
        greedy_step(point, closest, qt@, initial_search_radius as int),
{
    let ghost rem = qt@;
    let ghost r0 = initial_search_radius as int;
    let mut search_radius = initial_search_radius;
    let ghost mut gk: nat = 0nat;
    let mut found: Vec<Point> = Vec::new();
    proof {
        assert(pow2(0nat) == 1) by {
            vstd::arithmetic::power2::lemma2_to64();
        }
    }
    while found.len() == 0
        invariant
            1 <= search_radius < 2 * WINDOW_LIMIT,
            search_radius as int == r0 * pow2(gk),
            forall|j: nat| j < gk ==> window_set(point, r0 * pow2(j), rem).len() == 0,
            found@.len() > 0 ==> found@.to_multiset() =~= window_set(
                point,
                search_radius as int,
                rem,
            ),
        decreases 2 * WINDOW_LIMIT - search_radius + (if found@.len() == 0 {
            1int
        } else {
            0int
        }),
    {
        proof {
            vstd::arithmetic::div_mod::lemma_div_multiples_vanish(search_radius as int, 2);
            assert((2 * search_radius) / 2 == search_radius);
        }
        let range = Rectangle::new(
            point.x as i64,
            point.y as i64,
            2 * search_radius,
            2 * search_radius,
        );
        let found_q = qt.query(&range);
        proof {
            assert(shape_matches(range, rem) =~= window_set(point, search_radius as int, rem)) by {
                assert forall|q: Point|
                    shape_matches(range, rem).count(q) == window_set(
                        point,
                        search_radius as int,
                        rem,
                    ).count(q) by {}
            }
        }
        if found_q.len() > 0 {
            found = found_q;
        } else {
            proof {
                assert(window_set(point, r0 * pow2(gk), rem).len() == 0);
                // A window this wide spans the whole boundary, so the query
                // could not have come back empty: the radius is still small.
                if search_radius >= WINDOW_LIMIT {
                    let q = rem.choose();
                    assert(rem.count(q) > 0);
                    assert(within_window(point, search_radius as int, q));
                    assert(window_set(point, search_radius as int, rem).count(q) > 0);
                    assert(false);
                }
            }
            search_radius = 2 * search_radius;
            proof {
                let old_gk = gk;
                gk = gk + 1;
                vstd::arithmetic::power2::lemma_pow2_unfold(gk);
                assert(search_radius as int == r0 * pow2(gk)) by (nonlinear_arith)
                    requires
                        search_radius as int == 2 * (r0 * pow2(old_gk)),
                        pow2(gk) == 2 * pow2(old_gk),
                ;
                assert forall|j: nat| j < gk implies window_set(point, r0 * pow2(j), rem).len()
                    == 0 by {
                    if j < old_gk {
                    } else {
                        assert(j == old_gk);
                    }
                }
            }
        }
    }

    let mut closest: Point = point;
    let mut closest_dist: u128 = u128::MAX;
    let n = found.len();
    let mut i: usize = 0;
    while i < n
        invariant
            i <= n,
            n == found@.len(),
            i > 0 ==> found@.contains(closest) && closest_dist == spec_sq_dist(point, closest) && (
            forall|j: int|
                0 <= j < i ==> spec_sq_dist(point, closest) <= spec_sq_dist(point, found@[j])),
            i == 0 ==> closest_dist == u128::MAX,
        decreases n - i,
    {
        let element = found[i];
        proof {
            lemma_sq_dist_bound(point, element);
        }
        let d = sq_dist(&point, &element);
        if d < closest_dist {
            closest_dist = d;
            closest = element;
        }
        i = i + 1;
    }
    proof {
        assert(found@.contains(closest));
        assert(found@.to_multiset().count(closest) > 0);
        assert(window_set(point, search_radius as int, rem).count(closest) > 0);
        assert forall|q: Point|
            window_set(point, search_radius as int, rem).count(q) > 0 implies spec_sq_dist(
            point,
            closest,
        ) <= spec_sq_dist(point, q) by {
            assert(found@.to_multiset().count(q) > 0);
            assert(found@.contains(q));
            let j = choose|j: int| 0 <= j < found@.len() && found@[j] == q;
            assert(spec_sq_dist(point, closest) <= spec_sq_dist(point, found@[j]));
        }
        assert(greedy_step(point, closest, rem, r0));
    }
    closest
}

/// Orders the points into an approximate open tour: starting from the first
/// point, it repeatedly removes the current point from a quadtree over the
/// `w` by `h` area, queries an expanding square window around it until some
/// remaining point appears, and steps to a nearest candidate.
///
/// Sequences of at most two points come back unchanged. Otherwise the result
/// holds as many points as survived insertion (out-of-bounds and repeated
/// coordinates are silently dropped), starts at the first input point, is a
/// permutation of the kept points whenever the first point is in bounds, and
/// every transition satisfies `greedy_step`.
#[verifier::loop_isolation(false)]
#[verifier::rlimit(60)]
pub fn sort_by_distance_2d(
    points: Vec<Point>,
    w: i64,
    h: i64,
    initial_search_radius: i64,
) -> (sorted: Vec<Point>)
    requires
        0 <= w <= DIMENSION_LIMIT,
        0 <= h <= DIMENSION_LIMIT,
        1 <= initial_search_radius <= DIMENSION_LIMIT,
        points@.len() > 2 ==> exists|i: int|
            0 <= i < points@.len() && within_bounds(#[trigger] points@[i], w as int, h as int),
    ensures
        points@.len() <= 2 ==> sorted@ == points@,
        points@.len() > 2 ==> tour_output(
            points@,
            w as int,
            h as int,
            initial_search_radius as int,
            sorted@,
        ),
{
    if points.len() <= 2 {
        return points;
    }
    let ghost wi = w as int;
    let ghost hi = h as int;
    let ghost r0 = initial_search_radius as int;
    let ghost kept = kept_mset(points@, wi, hi);
    let ghost first_pt = points@[0];

    let boundary = Rectangle::new(w / 2, h / 2, w, h);
    let ghost gb = boundary;
    proof {
        assert forall|q: Point| gb.covers_pt(q) == within_bounds(q, wi, hi) by {}
        assert forall|q: Point| #[trigger] kept.count(q) <= 1 && (kept.count(q) > 0
            ==> within_bounds(q, wi, hi)) by {
            lemma_kept_mset_count(points@, wi, hi, q);
        }
    }
    let mut qt = QuadTree::new(boundary);

    let mut idx: usize = 0;
    while idx < points.len()
        invariant
            qt.well_formed(),
            qt.spec_boundary() == gb,
            idx <= points@.len(),
            qt@ =~= kept_mset(points@.subrange(0, idx as int), wi, hi),
        decreases points@.len() - idx,
    {
        let ghost prefix = points@.subrange(0, idx as int);
        let p = points[idx];
        proof {
            lemma_kept_len(prefix, wi, hi);
            lemma_kept_mset_count(prefix, wi, hi, p);
        }
        qt.insert(p);
        idx = idx + 1;
        proof {
            let prefix1 = points@.subrange(0, idx as int);
            assert(prefix1.drop_last() =~= prefix);
            assert(prefix1.last() == p);
            assert(qt@ =~= kept_mset(prefix1, wi, hi));
        }
    }
    proof {
        assert(points@.subrange(0, points@.len() as int) =~= points@);
        assert(qt@ =~= kept);
        let iw = choose|i: int| 0 <= i < points@.len() && within_bounds(points@[i], wi, hi);
        lemma_kept_mset_count(points@, wi, hi, points@[iw]);
        assert(kept.count(points@[iw]) == 1);
        assert(kept.len() >= 1);
    }

    let num_points = qt.size();
    let mut sorted: Vec<Point> = Vec::with_capacity(points.len());
    let mut point = points[0];

    while sorted.len() < num_points - 1
        invariant
            qt.well_formed(),
            qt.spec_boundary() == gb,
            num_points == kept.len(),
            1 <= num_points,
            sorted@.len() <= num_points - 1,
            qt@ =~= kept.sub(sorted@.to_multiset()),
            sorted@.len() > 0 ==> qt@.count(point) > 0,
            sorted@.len() == 0 ==> point == first_pt && sorted@.push(point)[0] == first_pt,
            sorted@.len() > 0 ==> sorted@[0] == first_pt,
            qt@.len() + sorted@.len() == kept.len() + (if sorted@.len() > 0 && !within_bounds(
                first_pt,
                wi,
                hi,
            ) {
                1int
            } else {
                0int
            }),
            forall|i: int|
                0 <= i < sorted@.len() ==> greedy_step(
                    #[trigger] sorted@.push(point)[i],
                    sorted@.push(point)[i + 1],
                    kept.sub(sorted@.push(point).subrange(0, i + 1).to_multiset()),
                    r0,
                ),
            forall|q: Point|
                q != first_pt ==> sorted@.push(point).to_multiset().count(q) <= kept.count(q),
            sorted@.push(point).to_multiset().count(first_pt) == 1,
        decreases num_points - 1 - sorted@.len(),
    {
        let ghost full = sorted@.push(point);
        let ghost pre_len = sorted@.len();
        let _removed = qt.remove(&point);
        proof {
            assert(full.to_multiset() =~= sorted@.to_multiset().insert(point));
            assert(qt@ =~= kept.sub(full.to_multiset())) by {
                assert forall|q: Point| qt@.count(q) == kept.sub(full.to_multiset()).count(q) by {}
            }
            if pre_len == 0 {
                assert(points@.contains(first_pt)) by {
                    assert(points@[0] == first_pt);
                }
                lemma_kept_mset_count(points@, wi, hi, first_pt);
                assert(sorted@.to_multiset() =~= Multiset::empty());
                assert(kept.sub(sorted@.to_multiset()) =~= kept);
                assert(_removed == within_bounds(first_pt, wi, hi));
            }
            assert(qt@.len() + full.len() == kept.len() + (if !within_bounds(first_pt, wi, hi) {
                1int
            } else {
                0int
            }));
            assert(qt@.len() >= 1);
        }
        proof {
            assert forall|q: Point| qt@.count(q) > 0 implies within_bounds(q, wi, hi) by {
                assert(kept.count(q) > 0);
            }
        }
        let ghost rem = qt@;
        let closest = nearest_remaining(&qt, point, initial_search_radius, w, h);

        let ghost pre_sorted = sorted@;
        let ghost pre_point = point;
        sorted.push(point);
        point = closest;
        proof {
            let full2 = sorted@.push(point);
            assert(sorted@ =~= full);
            assert(full2 =~= full.push(closest));
            assert(full2.subrange(0, full.len() as int) =~= full);
            // the pending transition list grows by one step at the end
            assert forall|i2: int|
                0 <= i2 < sorted@.len() implies greedy_step(
                #[trigger] full2[i2],
                full2[i2 + 1],
                kept.sub(full2.subrange(0, i2 + 1).to_multiset()),
                r0,
            ) by {
                assert(full2.subrange(0, i2 + 1) =~= full.subrange(0, i2 + 1));
                if i2 < sorted@.len() - 1 {
                    assert(full2[i2] == full[i2] && full2[i2 + 1] == full[i2 + 1]);
                } else {
                    assert(full2[i2] == pre_point && full2[i2 + 1] == closest);
                    assert(full.subrange(0, i2 + 1) =~= full);
                }
            }
            // the chosen point was still in the tree, so its kept count
            // strictly exceeds its emitted count
            assert(rem.count(closest) > 0);
            assert(kept.count(closest) > full.to_multiset().count(closest));
            assert(full2.to_multiset() =~= full.to_multiset().insert(closest));
            assert(closest != first_pt);
            assert(qt@.count(point) > 0);
        }
    }
    proof {
        assert(sorted@.len() == num_points - 1);
    }
    let ghost full = sorted@.push(point);
    let ghost pre_len = sorted@.len();
    sorted.push(point);
    proof {
        assert(sorted@ =~= full);
        assert(sorted@.len() == kept.len());
        assert(sorted@[0] == first_pt);
        let emitted = sorted@.to_multiset();
        assert(emitted =~= full.to_multiset());
        // the final point is emitted without being removed from the tree, so
        // what the tree still holds beyond it is what was never emitted
        let final_left = kept.sub(emitted);
        assert(final_left =~= qt@.remove(point)) by {
            assert forall|q: Point| final_left.count(q) == qt@.remove(point).count(q) by {}
        }
        if within_bounds(first_pt, wi, hi) {
            assert(qt@.len() == 1);
            assert(qt@.count(point) > 0) by {
                if pre_len == 0 {
                    assert(point == first_pt);
                    assert(points@.contains(first_pt)) by {
                        assert(points@[0] == first_pt);
                    }
                    lemma_kept_mset_count(points@, wi, hi, first_pt);
                }
            }
            assert(final_left.len() == 0);
            assert(final_left =~= Multiset::empty());
            assert forall|q: Point| emitted.count(q) == kept.count(q) by {
                assert(kept.sub(emitted).count(q) == 0);
                if q == first_pt {
                    assert(kept.count(first_pt) == 1) by {
                        assert(points@.contains(first_pt)) by {
                            assert(points@[0] == first_pt);
                        }
                        lemma_kept_mset_count(points@, wi, hi, first_pt);
                    }
                } else {
                    assert(emitted.count(q) <= kept.count(q));
                }
            }
            assert(sorted@.to_multiset() =~= kept);
        } else {
            assert(kept.count(first_pt) == 0) by {
                lemma_kept_mset_count(points@, wi, hi, first_pt);
            }
            if pre_len == 0 {
                assert(point == first_pt);
                assert(qt@.count(first_pt) <= kept.count(first_pt));
                assert(qt@.count(point) == 0);
                assert(qt@.remove(point) =~= qt@);
                assert(final_left.len() == qt@.len());
                assert(qt@.len() == 1);
            } else {
                assert(qt@.count(point) > 0);
                assert(qt@.len() == 2);
                assert(final_left.len() == 1);
            }
            assert(final_left.len() == 1);
            let leftover = final_left.choose();
            assert(final_left.count(leftover) > 0);
            assert(final_left.remove(leftover).len() == 0);
            assert(final_left.remove(leftover) =~= Multiset::empty());
            assert(kept.count(leftover) == 1 && emitted.count(leftover) == 0);
            assert forall|q: Point|
                emitted.count(q) == kept.remove(leftover).insert(first_pt).count(q) by {
                if q != leftover && q != first_pt {
                    assert(final_left.remove(leftover).count(q) == 0);
                    assert(final_left.count(q) == 0);
                    assert(emitted.count(q) <= kept.count(q));
                }
            }
            assert(emitted =~= kept.remove(leftover).insert(first_pt));
            assert(kept.count(leftover) == 1 && sorted@.to_multiset() == kept.remove(
                leftover,
            ).insert(first_pt));
        }
        // the recorded transitions are exactly the final chain
        assert forall|i: int|
            0 <= i < sorted@.len() - 1 implies greedy_step(
            #[trigger] sorted@[i],
            sorted@[i + 1],
            kept.sub(sorted@.subrange(0, i + 1).to_multiset()),
            r0,
        ) by {}
    }
    sorted
}

/// The planar points stored in a sequence of packed words.
pub open spec fn decoded_points(words: Seq<u32>) -> Seq<Point> {
    words.map_values(|wd: u32| Point { x: decode_x(wd) as i32, y: decode_y(wd) as i32 })
}

/// The packed words holding a sequence of planar points.
pub open spec fn encoded_words(pts: Seq<Point>) -> Seq<u32> {
    pts.map_values(|p: Point| word_of(p.x, p.y))
}

/// The boundary form of the sequencer: unpacks the incoming words, orders
/// the points, and packs the ordering again. Every output word is the
/// packing of one decoded point, so words whose unused bits were set come
/// back in canonical form.
#[verifier::loop_isolation(false)]
#[verifier::rlimit(60)]
pub fn sort(points: &[u32], w: i64, h: i64, initial_search_radius: i64) -> (out: Vec<u32>)
    requires
        0 <= w <= DIMENSION_LIMIT,
        0 <= h <= DIMENSION_LIMIT,
        1 <= initial_search_radius <= DIMENSION_LIMIT,
        points@.len() > 2 ==> exists|i: int|
            0 <= i < points@.len() && within_bounds(
                #[trigger] decoded_points(points@)[i],
                w as int,
                h as int,
            ),
    ensures
        points@.len() <= 2 ==> out@ == encoded_words(decoded_points(points@)),
        points@.len() > 2 ==> exists|s: Seq<Point>|
            {
                &&& tour_output(
                    decoded_points(points@),
                    w as int,
                    h as int,
                    initial_search_radius as int,
                    s,
                )
                &&& out@ == #[trigger] encoded_words(s)
            },
{
    let ghost pts_spec = decoded_points(points@);
    let n = points.len();
    let mut pts: Vec<Point> = Vec::with_capacity(n);
    let mut i: usize = 0;
    while i < n
        invariant
            i <= n,
            pts@ =~= pts_spec.subrange(0, i as int),
        decreases n - i,
    {
        let bp = BitPoint::from_raw(points[i]);
        pts.push(Point::from(bp));
        i = i + 1;
        proof {
            assert(pts@ =~= pts_spec.subrange(0, i as int));
        }
    }
    proof {
        assert(pts@ =~= pts_spec);
    }
    let sorted = sort_by_distance_2d(pts, w, h, initial_search_radius);
    let m = sorted.len();
    let mut out: Vec<u32> = Vec::with_capacity(m);
    let mut j: usize = 0;
    while j < m
        invariant
            j <= m,
            m == sorted@.len(),
            out@ =~= encoded_words(sorted@).subrange(0, j as int),
        decreases m - j,
    {
        let word = BitPoint::from(sorted[j]).to_raw();
        out.push(word);
        j = j + 1;
        proof {
            assert(out@ =~= encoded_words(sorted@).subrange(0, j as int));
        }
    }
    proof {
        assert(out@ =~= encoded_words(sorted@));
        if points@.len() > 2 {
            assert(tour_output(
                pts_spec,
                w as int,
                h as int,
                initial_search_radius as int,
                sorted@,
            ) && out@ == encoded_words(sorted@));
        }
    }
    out
}

/// The squared Euclidean distance between two points; no square root is
/// taken, since only the relative order of distances matters.
fn sq_dist<T: Coord>(a: &T, b: &T) -> (d: u128)
    ensures
        d == sq(b.spec_x() - a.spec_x()) + sq(b.spec_y() - a.spec_y()),
{
    let dx = b.x() as i64 - a.x() as i64;
    let dy = b.y() as i64 - a.y() as i64;
    proof {
        assert(dx * dx == sq(dx as int) && dx * dx >= 0 && dx * dx <= 0x1_0000_0000_0000_0000i128)
            by (nonlinear_arith)
            requires
                -0x1_0000_0000i64 <= dx <= 0x1_0000_0000i64,
        ;
        assert(dy * dy == sq(dy as int) && dy * dy >= 0 && dy * dy <= 0x1_0000_0000_0000_0000i128)
            by (nonlinear_arith)
            requires
                -0x1_0000_0000i64 <= dy <= 0x1_0000_0000i64,
        ;
    }
    let d = (dx as i128) * (dx as i128) + (dy as i128) * (dy as i128);
    d as u128
}


} // verus!
