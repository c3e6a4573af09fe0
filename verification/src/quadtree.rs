use crate::coord::Point;
use vstd::multiset::Multiset;
use vstd::prelude::*;

verus! {

broadcast use {vstd::multiset::group_multiset_axioms, vstd::seq_lib::group_to_multiset_ensures};

/// Every edge of a query shape or node boundary stays within this bound, so
/// that squared distances between any two coordinates fit comfortably in
/// 128-bit arithmetic.
pub const SPACE_BOUND: i64 = 0x10_0000_0000_0000;

/// An axis-aligned rectangle, stored as a center with full extents together
/// with its four derived edges. The vertical axis grows downwards: `top` is
/// the smaller y edge.
pub struct Rectangle {
    x: i64,
    y: i64,
    w: i64,
    h: i64,
    left: i64,
    right: i64,
    top: i64,
    bottom: i64,
}

/// The four children of a subdivided node boundary.
pub enum Quadrant {
    NorthEast,
    SouthEast,
    NorthWest,
    SouthWest,
}

impl Rectangle {
    pub closed spec fn spec_x(self) -> int {
        self.x as int
    }

    pub closed spec fn spec_y(self) -> int {
        self.y as int
    }

    pub closed spec fn spec_w(self) -> int {
        self.w as int
    }

    pub closed spec fn spec_h(self) -> int {
        self.h as int
    }

    pub closed spec fn spec_left(self) -> int {
        self.left as int
    }

    pub closed spec fn spec_right(self) -> int {
        self.right as int
    }

    pub closed spec fn spec_top(self) -> int {
        self.top as int
    }

    pub closed spec fn spec_bottom(self) -> int {
        self.bottom as int
    }

    /// Edges are ordered, bounded, and enclose the stored center.
    #[verifier::type_invariant]
    pub closed spec fn wf(self) -> bool {
        &&& -SPACE_BOUND <= self.left <= self.right <= SPACE_BOUND
        &&& -SPACE_BOUND <= self.top <= self.bottom <= SPACE_BOUND
        &&& self.left <= self.x <= self.right
        &&& self.top <= self.y <= self.bottom
    }

    /// The rectangle is well formed: ordered, bounded edges that enclose the
    /// stored center. Every rectangle this module hands out satisfies it.
    pub open spec fn valid(self) -> bool {
        &&& -SPACE_BOUND <= self.spec_left() <= self.spec_right() <= SPACE_BOUND
        &&& -SPACE_BOUND <= self.spec_top() <= self.spec_bottom() <= SPACE_BOUND
        &&& self.spec_left() <= self.spec_x() <= self.spec_right()
        &&& self.spec_top() <= self.spec_y() <= self.spec_bottom()
    }

    /// The point lies inside the rectangle; all four edges are inclusive.
    pub open spec fn covers(self, px: int, py: int) -> bool {
        &&& self.spec_left() <= px <= self.spec_right()
        &&& self.spec_top() <= py <= self.spec_bottom()
    }

    /// The rectangle covers the planar point's coordinates.
    pub open spec fn covers_pt(self, p: Point) -> bool {
        self.covers(p.x as int, p.y as int)
    }

    /// The two rectangles share at least one (real) point: neither lies
    /// strictly to one side of the other on either axis.
    pub open spec fn overlaps(self, other: Rectangle) -> bool {
        !(self.spec_right() < other.spec_left() || other.spec_right() < self.spec_left()
            || self.spec_bottom() < other.spec_top() || other.spec_bottom() < self.spec_top())
    }

    /// Horizontal split line of the boundary, rounded towards the left edge.
    pub open spec fn mid_x(self) -> int {
        (self.spec_left() + self.spec_right()) / 2
    }

    /// Vertical split line of the boundary, rounded towards the top edge.
    pub open spec fn mid_y(self) -> int {
        (self.spec_top() + self.spec_bottom()) / 2
    }

    pub fn new(x: i64, y: i64, w: i64, h: i64) -> (r: Rectangle)
        requires
            0 <= w,
            0 <= h,
            -SPACE_BOUND <= x - w / 2,
            x + w / 2 <= SPACE_BOUND,
            -SPACE_BOUND <= y - h / 2,
            y + h / 2 <= SPACE_BOUND,
        ensures
            r.spec_x() == x,
            r.spec_y() == y,
            r.spec_w() == w,
            r.spec_h() == h,
            r.spec_left() == x - w / 2,
            r.spec_right() == x + w / 2,
            r.spec_top() == y - h / 2,
            r.spec_bottom() == y + h / 2,
            r.valid(),
    {
        let half_w = w / 2;
        let half_h = h / 2;
        proof {
            vstd::arithmetic::div_mod::lemma_div_pos_is_pos(w as int, 2);
            vstd::arithmetic::div_mod::lemma_div_pos_is_pos(h as int, 2);
        }
        Rectangle {
            x,
            y,
            w,
            h,
            left: x - half_w,
            right: x + half_w,
            top: y - half_h,
            bottom: y + half_h,
        }
    }

    /// Builds the rectangle spanning the given edges; the stored center is
    /// the midpoint of each edge pair, and the stored extents are the exact
    /// edge spans.
    fn from_edges(left: i64, right: i64, top: i64, bottom: i64) -> (r: Rectangle)
        requires
            -SPACE_BOUND <= left <= right <= SPACE_BOUND,
            -SPACE_BOUND <= top <= bottom <= SPACE_BOUND,
        ensures
            r.spec_left() == left,
            r.spec_right() == right,
            r.spec_top() == top,
            r.spec_bottom() == bottom,
            r.spec_x() == (left + right) / 2,
            r.spec_y() == (top + bottom) / 2,
            r.spec_w() == right - left,
            r.spec_h() == bottom - top,
            r.valid(),
    {
        proof {
            lemma_mid_between(left as int, right as int);
            lemma_mid_between(top as int, bottom as int);
        }
        let mx = left + (right - left) / 2;
        let my = top + (bottom - top) / 2;
        Rectangle { x: mx, y: my, w: right - left, h: bottom - top, left, right, top, bottom }
    }

    /// One quadrant of this rectangle. The boundary splits at the midpoint of
    /// each axis; a shared split line belongs to both adjacent quadrants,
    /// since all edges are inclusive.
    pub fn subdivide(&self, quadrant: &Quadrant) -> (r: Rectangle)
        ensures
            quadrant is NorthEast ==> r.spec_left() == self.mid_x() && r.spec_right()
                == self.spec_right() && r.spec_top() == self.spec_top() && r.spec_bottom()
                == self.mid_y(),
            quadrant is NorthWest ==> r.spec_left() == self.spec_left() && r.spec_right()
                == self.mid_x() && r.spec_top() == self.spec_top() && r.spec_bottom()
                == self.mid_y(),
            quadrant is SouthEast ==> r.spec_left() == self.mid_x() && r.spec_right()
                == self.spec_right() && r.spec_top() == self.mid_y() && r.spec_bottom()
                == self.spec_bottom(),
            quadrant is SouthWest ==> r.spec_left() == self.spec_left() && r.spec_right()
                == self.mid_x() && r.spec_top() == self.mid_y() && r.spec_bottom()
                == self.spec_bottom(),
            r.spec_x() == (r.spec_left() + r.spec_right()) / 2,
            r.spec_y() == (r.spec_top() + r.spec_bottom()) / 2,
            r.spec_w() == r.spec_right() - r.spec_left(),
            r.spec_h() == r.spec_bottom() - r.spec_top(),
            r.valid(),
    {
        proof {
            use_type_invariant(self);
            lemma_mid_between(self.left as int, self.right as int);
            lemma_mid_between(self.top as int, self.bottom as int);
        }
        let mx = self.left + (self.right - self.left) / 2;
        let my = self.top + (self.bottom - self.top) / 2;
        match quadrant {
            Quadrant::NorthEast => Rectangle::from_edges(mx, self.right, self.top, my),
            Quadrant::NorthWest => Rectangle::from_edges(self.left, mx, self.top, my),
            Quadrant::SouthEast => Rectangle::from_edges(mx, self.right, my, self.bottom),
            Quadrant::SouthWest => Rectangle::from_edges(self.left, mx, my, self.bottom),
        }
    }
}

/// The midpoint of an ordered pair stays between the two ends.
proof fn lemma_mid_between(lo: int, hi: int)
    requires
        lo <= hi,
    ensures
        lo <= (lo + hi) / 2 <= hi,
        lo + (hi - lo) / 2 == (lo + hi) / 2,
{
    vstd::arithmetic::div_mod::lemma_hoist_over_denominator(hi - lo, lo, 2nat);
    vstd::arithmetic::div_mod::lemma_div_pos_is_pos(hi - lo, 2);
    vstd::arithmetic::div_mod::lemma_div_nonincreasing(hi - lo, 2);
}

/// A rectangle covers its own center, its top left corner, and its bottom
/// right corner.
pub proof fn lemma_rect_covers_center_and_corners(r: Rectangle)
    requires
        r.valid(),
    ensures
        r.covers(r.spec_x(), r.spec_y()),
        r.covers(r.spec_left(), r.spec_top()),
        r.covers(r.spec_right(), r.spec_bottom()),
{
}

/// The square of an integer.
pub open spec fn sq(v: int) -> int {
    v * v
}

/// `v` clamped into the closed interval from `lo` to `hi`.
pub open spec fn clamp(v: int, lo: int, hi: int) -> int {
    if v < lo {
        lo
    } else if v > hi {
        hi
    } else {
        v
    }
}

/// A square is never negative.
proof fn lemma_sq_nonneg(a: int)
    ensures
        sq(a) >= 0,
{
    assert(a * a >= 0) by (nonlinear_arith);
}

/// A value between `c` and `-c` has a square no larger than the square of `c`.
proof fn lemma_sq_within(a: int, c: int)
    requires
        (-c <= a <= c) || (c <= a <= -c),
    ensures
        sq(a) <= sq(c),
{
    assert(a * a <= c * c) by (nonlinear_arith)
        requires
            (-c <= a && a <= c) || (c <= a && a <= -c),
    ;
}

/// A magnitude strictly beyond a nonnegative bound has a strictly larger square.
proof fn lemma_sq_lt(a: int, b: int)
    requires
        0 <= a < b,
    ensures
        sq(a) < sq(b),
{
    assert(a * a < b * b) by (nonlinear_arith)
        requires
            0 <= a < b,
    ;
}

/// Doubling a value multiplies its square by four.
proof fn lemma_sq_double(a: int)
    ensures
        sq(2 * a) == 4 * sq(a),
{
    assert((2 * a) * (2 * a) == 4 * (a * a)) by (nonlinear_arith);
}

/// Negation keeps the square.
proof fn lemma_sq_neg(a: int)
    ensures
        sq(-a) == sq(a),
{
    assert((-a) * (-a) == a * a) by (nonlinear_arith);
}

/// A query shape: something that can say whether it covers a point and
/// whether it reaches into an axis-aligned rectangle.
pub trait Queryable: Sized {
    /// The shape covers the integer point.
    spec fn covers_point(&self, px: int, py: int) -> bool;

    /// The shape and the rectangle share at least one point.
    spec fn reaches(&self, range: Rectangle) -> bool;

    /// A covered point inside `range` witnesses that the shape reaches it.
    /// Range queries prune by this fact: a subtree whose boundary the shape
    /// does not reach holds no covered point.
    proof fn lemma_covered_point_reaches(&self, range: Rectangle, px: int, py: int)
        requires
            range.covers(px, py),
            self.covers_point(px, py),
        ensures
            self.reaches(range),
    ;

    fn intersects(&self, range: &Rectangle) -> (b: bool)
        ensures
            b == self.reaches(*range),
    ;

    fn contains(&self, point: &Point) -> (b: bool)
        ensures
            b == self.covers_point(point.x as int, point.y as int),
    ;
}

impl Queryable for Rectangle {
    open spec fn covers_point(&self, px: int, py: int) -> bool {
        self.covers(px, py)
    }

    open spec fn reaches(&self, range: Rectangle) -> bool {
        self.overlaps(range)
    }

    proof fn lemma_covered_point_reaches(&self, range: Rectangle, px: int, py: int) {
    }

    fn intersects(&self, range: &Rectangle) -> (b: bool) {
        !(self.right < range.left || range.right < self.left || self.bottom < range.top
            || range.bottom < self.top)
    }

    fn contains(&self, point: &Point) -> (b: bool) {
        let px = point.x as i64;
        let py = point.y as i64;
        self.left <= px && px <= self.right && self.top <= py && py <= self.bottom
    }
}

/// A circle: a center, a radius, and the radius' square, kept so that
/// containment tests need no recomputation.
pub struct Circle {
    x: i64,
    y: i64,
    r: i64,
    r_squared: i128,
}

impl Circle {
    pub closed spec fn spec_x(self) -> int {
        self.x as int
    }

    pub closed spec fn spec_y(self) -> int {
        self.y as int
    }

    pub closed spec fn spec_r(self) -> int {
        self.r as int
    }

    pub closed spec fn spec_r_squared(self) -> int {
        self.r_squared as int
    }

    /// Center and radius are bounded, the radius is not negative, and the
    /// cached square is the radius' square.
    #[verifier::type_invariant]
    pub closed spec fn wf(self) -> bool {
        &&& -SPACE_BOUND <= self.x <= SPACE_BOUND
        &&& -SPACE_BOUND <= self.y <= SPACE_BOUND
        &&& 0 <= self.r <= SPACE_BOUND
        &&& self.r_squared == self.r * self.r
    }

    /// The circle is well formed; every circle this module hands out
    /// satisfies it.
    pub open spec fn valid(self) -> bool {
        &&& -SPACE_BOUND <= self.spec_x() <= SPACE_BOUND
        &&& -SPACE_BOUND <= self.spec_y() <= SPACE_BOUND
        &&& 0 <= self.spec_r() <= SPACE_BOUND
        &&& self.spec_r_squared() == sq(self.spec_r())
    }

    pub fn new(x: i64, y: i64, r: i64) -> (c: Circle)
        requires
            -SPACE_BOUND <= x <= SPACE_BOUND,
            -SPACE_BOUND <= y <= SPACE_BOUND,
            0 <= r <= SPACE_BOUND,
        ensures
            c.spec_x() == x,
            c.spec_y() == y,
            c.spec_r() == r,
            c.spec_r_squared() == sq(r as int),
            c.valid(),
    {
        proof {
            lemma_sq_within(r as int, SPACE_BOUND as int);
            lemma_sq_nonneg(r as int);
        }
        let r_squared = (r as i128) * (r as i128);
        Circle { x, y, r, r_squared }
    }
}

impl Queryable for Circle {
    /// The squared distance from the center to the point is at most the
    /// squared radius.
    open spec fn covers_point(&self, px: int, py: int) -> bool {
        sq(self.spec_x() - px) + sq(self.spec_y() - py) <= self.spec_r_squared()
    }

    /// The rectangle point nearest to the center lies within the radius.
    open spec fn reaches(&self, range: Rectangle) -> bool {
        let nx = clamp(self.spec_x(), range.spec_left(), range.spec_right());
        let ny = clamp(self.spec_y(), range.spec_top(), range.spec_bottom());
        sq(self.spec_x() - nx) + sq(self.spec_y() - ny) <= self.spec_r_squared()
    }

    proof fn lemma_covered_point_reaches(&self, range: Rectangle, px: int, py: int) {
        let cx = self.spec_x();
        let cy = self.spec_y();
        let nx = clamp(cx, range.spec_left(), range.spec_right());
        let ny = clamp(cy, range.spec_top(), range.spec_bottom());
        lemma_sq_within(cx - nx, cx - px);
        lemma_sq_within(cy - ny, cy - py);
    }

    /// The separating test of the two centers' axis distances against the
    /// radius and the rectangle's half extents, carried out in doubled
    /// coordinates so that halving never rounds.
    fn intersects(&self, range: &Rectangle) -> (b: bool) {
        proof {
            use_type_invariant(self);
            use_type_invariant(range);
        }
        let cx2 = 2 * self.x;
        let cy2 = 2 * self.y;
        let rx2 = range.left + range.right;
        let ry2 = range.top + range.bottom;
        let xd = if cx2 >= rx2 {
            cx2 - rx2
        } else {
            rx2 - cx2
        };
        let yd = if cy2 >= ry2 {
            cy2 - ry2
        } else {
            ry2 - cy2
        };
        let w2 = range.right - range.left;
        let h2 = range.bottom - range.top;
        let r2 = 2 * self.r;

        let ghost nx = clamp(self.spec_x(), range.spec_left(), range.spec_right());
        let ghost ny = clamp(self.spec_y(), range.spec_top(), range.spec_bottom());
        let ghost dxc = self.spec_x() - nx;
        let ghost dyc = self.spec_y() - ny;
        proof {
            // The doubled axis overshoots equal twice the clamped offsets.
            assert(xd > w2 ==> xd - w2 == 2 * dxc || xd - w2 == -2 * dxc);
            assert(xd <= w2 ==> dxc == 0);
            assert(yd > h2 ==> yd - h2 == 2 * dyc || yd - h2 == -2 * dyc);
            assert(yd <= h2 ==> dyc == 0);
            lemma_sq_nonneg(dxc);
            lemma_sq_nonneg(dyc);
        }

        if xd > r2 + w2 || yd > r2 + h2 {
            proof {
                if xd > r2 + w2 {
                    let m = if dxc >= 0 { dxc } else { -dxc };
                    lemma_sq_neg(dxc);
                    lemma_sq_lt(self.spec_r(), m);
                } else {
                    let m = if dyc >= 0 { dyc } else { -dyc };
                    lemma_sq_neg(dyc);
                    lemma_sq_lt(self.spec_r(), m);
                }
            }
            return false;
        }
        if xd <= w2 || yd <= h2 {
            proof {
                if xd <= w2 {
                    lemma_sq_within(dyc, self.spec_r());
                    assert(sq(dxc) == 0) by (nonlinear_arith)
                        requires
                            dxc == 0,
                    ;
                } else {
                    lemma_sq_within(dxc, self.spec_r());
                    assert(sq(dyc) == 0) by (nonlinear_arith)
                        requires
                            dyc == 0,
                    ;
                }
                assert(self.reaches(*range));
            }
            return true;
        }
        let ex = xd - w2;
        let ey = yd - h2;
        proof {
            lemma_sq_double(dxc);
            lemma_sq_double(dyc);
            lemma_sq_neg(2 * dxc);
            lemma_sq_neg(2 * dyc);
            lemma_sq_within(ex as int, 2 * SPACE_BOUND as int);
            lemma_sq_within(ey as int, 2 * SPACE_BOUND as int);
            lemma_sq_nonneg(ex as int);
            lemma_sq_nonneg(ey as int);
            lemma_sq_within(self.spec_r(), SPACE_BOUND as int);
            lemma_sq_nonneg(self.spec_r());
        }
        let edge = (ex as i128) * (ex as i128) + (ey as i128) * (ey as i128);
        edge <= 4 * self.r_squared
    }

    fn contains(&self, point: &Point) -> (b: bool) {
        proof {
            use_type_invariant(self);
        }
        let dx = self.x - point.x as i64;
        let dy = self.y - point.y as i64;
        proof {
            lemma_sq_within(dx as int, 2 * SPACE_BOUND as int);
            lemma_sq_within(dy as int, 2 * SPACE_BOUND as int);
            lemma_sq_nonneg(dx as int);
            lemma_sq_nonneg(dy as int);
        }
        let d = (dx as i128) * (dx as i128) + (dy as i128) * (dy as i128);
        d <= self.r_squared
    }
}

/// A circle reaches a rectangle exactly when some integer point of the
/// rectangle lies within the circle; the nearest such point is the center
/// clamped to the rectangle's edges.
pub proof fn lemma_circle_reaches_iff_covered_point(c: Circle, r: Rectangle)
    requires
        c.valid(),
        r.valid(),
    ensures
        c.reaches(r) <==> exists|px: int, py: int| r.covers(px, py) && c.covers_point(px, py),
{
    if c.reaches(r) {
        let nx = clamp(c.spec_x(), r.spec_left(), r.spec_right());
        let ny = clamp(c.spec_y(), r.spec_top(), r.spec_bottom());
        assert(r.covers(nx, ny) && c.covers_point(nx, ny));
    }
    if exists|px: int, py: int| r.covers(px, py) && c.covers_point(px, py) {
        let (px, py) = choose|px: int, py: int| r.covers(px, py) && c.covers_point(px, py);
        c.lemma_covered_point_reaches(r, px, py);
    }
}

/// A well-formed tree never stores a coordinate pair twice, and every
/// stored point lies within the root boundary.
pub proof fn lemma_tree_invariants(t: QuadTree)
    requires
        t.well_formed(),
    ensures
        forall|p: Point| #[trigger] t@.count(p) <= 1,
        forall|p: Point| #[trigger] t@.count(p) > 0 ==> t.spec_boundary().covers_pt(p),
{
}

/// How the tree's size moves under `insert` and `remove`, stated over the
/// multiset view that their contracts update: a fresh insert grows the tree
/// by exactly one and makes a second insert of the same coordinates a
/// refusal; removing a stored point shrinks the tree by exactly one; and
/// re-inserting a removed point restores both the contents and the size.
pub proof fn lemma_size_under_insert_remove(m: Multiset<Point>, p: Point)
    ensures
        m.count(p) == 0 ==> m.insert(p).len() == m.len() + 1,
        m.count(p) == 0 ==> m.insert(p).count(p) > 0,
        m.count(p) > 0 ==> m.remove(p).len() == m.len() - 1,
        m.count(p) > 0 ==> m.remove(p).insert(p).len() == m.len(),
        m.count(p) == 1 ==> m.remove(p).count(p) == 0 && m.remove(p).insert(p) =~= m,
{
    if m.count(p) > 0 {
        assert(m =~= m.remove(p).insert(p));
    }
}

/// Bucket capacity used by `QuadTree::new`.
pub const CAPACITY: usize = 8;

/// One node of the quadtree: a boundary, a bounded bucket of points, and,
/// once the node has divided, exactly four children covering the quadrants
/// of the boundary. Children are never removed once created.
pub struct Node {
    size: usize,
    boundary: Rectangle,
    points: Vec<Point>,
    capacity: usize,
    divided: bool,
    northeast: Option<Box<Node>>,
    northwest: Option<Box<Node>>,
    southeast: Option<Box<Node>>,
    southwest: Option<Box<Node>>,
}

impl Node {
    /// The points stored in the subtree rooted at an optional child.
    pub closed spec fn opt_mset(node: Option<Box<Node>>) -> Multiset<Point>
        decreases node,
    {
        match node {
            None => Multiset::empty(),
            Some(n) => n.as_mset(),
        }
    }

    /// All points stored in this subtree: the node's own bucket together
    /// with everything below the four children.
    pub closed spec fn as_mset(self) -> Multiset<Point>
        decreases self,
    {
        self.points@.to_multiset().add(Node::opt_mset(self.northeast)).add(
            Node::opt_mset(self.northwest),
        ).add(Node::opt_mset(self.southeast)).add(Node::opt_mset(self.southwest))
    }

    /// Well-formedness of the subtree: the bucket respects its capacity,
    /// the four children exist exactly when the node has divided and then
    /// cover the four quadrants of the boundary, the size counter equals the
    /// number of stored points, no point is stored twice, and every stored
    /// point lies within the boundary.
    pub closed spec fn wf(self) -> bool
        decreases self,
    {
        &&& self.boundary.valid()
        &&& 1 <= self.capacity
        &&& self.points@.len() <= self.capacity
        &&& self.divided <==> self.northeast is Some
        &&& self.divided <==> self.northwest is Some
        &&& self.divided <==> self.southeast is Some
        &&& self.divided <==> self.southwest is Some
        &&& self.divided ==> {
            let ne = self.northeast.unwrap();
            let nw = self.northwest.unwrap();
            let se = self.southeast.unwrap();
            let sw = self.southwest.unwrap();
            &&& ne.wf()
            &&& nw.wf()
            &&& se.wf()
            &&& sw.wf()
            &&& ne.capacity == self.capacity
            &&& nw.capacity == self.capacity
            &&& se.capacity == self.capacity
            &&& sw.capacity == self.capacity
            &&& ne.boundary.spec_left() == self.boundary.mid_x()
            &&& ne.boundary.spec_right() == self.boundary.spec_right()
            &&& ne.boundary.spec_top() == self.boundary.spec_top()
            &&& ne.boundary.spec_bottom() == self.boundary.mid_y()
            &&& nw.boundary.spec_left() == self.boundary.spec_left()
            &&& nw.boundary.spec_right() == self.boundary.mid_x()
            &&& nw.boundary.spec_top() == self.boundary.spec_top()
            &&& nw.boundary.spec_bottom() == self.boundary.mid_y()
            &&& se.boundary.spec_left() == self.boundary.mid_x()
            &&& se.boundary.spec_right() == self.boundary.spec_right()
            &&& se.boundary.spec_top() == self.boundary.mid_y()
            &&& se.boundary.spec_bottom() == self.boundary.spec_bottom()
            &&& sw.boundary.spec_left() == self.boundary.spec_left()
            &&& sw.boundary.spec_right() == self.boundary.mid_x()
            &&& sw.boundary.spec_top() == self.boundary.mid_y()
            &&& sw.boundary.spec_bottom() == self.boundary.spec_bottom()
        }
        &&& self.size == self.as_mset().len()
        &&& forall|p: Point| #[trigger] self.as_mset().count(p) <= 1
        &&& forall|p: Point| #[trigger] self.as_mset().count(p) > 0 ==> self.boundary.covers_pt(p)
    }

    /// An empty node over the given boundary.
    fn with_capacity(boundary: Rectangle, capacity: usize) -> (n: Node)
        requires
            boundary.valid(),
            1 <= capacity,
        ensures
            n.wf(),
            n.boundary == boundary,
            n.capacity == capacity,
            !n.divided,
            n.points@.len() == 0,
            n.as_mset() =~= Multiset::empty(),
    {
        let n = Node {
            size: 0,
            boundary,
            points: Vec::new(),
            capacity,
            divided: false,
            northeast: None,
            northwest: None,
            southeast: None,
            southwest: None,
        };
        proof {
            assert(n.points@.to_multiset() =~= Multiset::empty()) by {
                n.points@.to_multiset_ensures();
            }
            assert(n.as_mset() =~= Multiset::empty());
        }
        n
    }

    fn size(&self) -> (n: usize)
        requires
            self.wf(),
        ensures
            n == self.as_mset().len(),
    {
        self.size
    }

    /// Index of a point with equal coordinates in the bucket, if any.
    fn find_in_bucket(points: &Vec<Point>, point: &Point) -> (r: Option<usize>)
        ensures
            match r {
                Some(i) => i < points@.len() && points@[i as int] == *point,
                None => forall|i: int| 0 <= i < points@.len() ==> points@[i] != *point,
            },
    {
        let n = points.len();
        let mut i: usize = 0;
        while i < n
            invariant
                n == points@.len(),
                i <= n,
                forall|j: int| 0 <= j < i ==> points@[j] != *point,
            decreases n - i,
        {
            let p = points[i];
            if p.x == point.x && p.y == point.y {
                return Some(i);
            }
            i = i + 1;
        }
        None
    }

    /// True exactly when a point with these coordinates is stored somewhere
    /// in the subtree.
    fn contains(&self, point: &Point) -> (r: bool)
        requires
            self.wf(),
        ensures
            r == (self.as_mset().count(*point) > 0),
        decreases self,
    {
        if !self.boundary.contains(point) {
            return false;
        }
        if Node::find_in_bucket(&self.points, point).is_some() {
            proof {
                assert(self.points@.contains(*point));
            }
            return true;
        }
        proof {
            assert(!self.points@.contains(*point));
            assert(self.points@.to_multiset().count(*point) == 0);
        }
        if !self.divided {
            return false;
        }
        let r = Node::opt_contains(&self.northeast, point) || Node::opt_contains(
            &self.northwest,
            point,
        ) || Node::opt_contains(&self.southeast, point) || Node::opt_contains(
            &self.southwest,
            point,
        );
        r
    }

    fn opt_contains(node: &Option<Box<Node>>, point: &Point) -> (r: bool)
        requires
            match *node {
                Some(n) => n.wf(),
                None => true,
            },
        ensures
            r == (Node::opt_mset(*node).count(*point) > 0),
        decreases node,
    {
        match node {
            None => false,
            Some(n) => n.contains(point),
        }
    }

    /// An empty, undivided node.
    spec fn is_fresh(self) -> bool {
        &&& !self.divided
        &&& self.points@.len() == 0
    }

    /// Creates the four children, each an empty node over one quadrant of
    /// this node's boundary. Called once, the first time a full node must
    /// pass a point down; the children then stay forever.
    fn subdivide(&mut self)
        requires
            old(self).wf(),
            !old(self).divided,
        ensures
            final(self).wf(),
            final(self).divided,
            final(self).boundary == old(self).boundary,
            final(self).capacity == old(self).capacity,
            final(self).points == old(self).points,
            final(self).size == old(self).size,
            final(self).as_mset() =~= old(self).as_mset(),
            final(self).northeast.unwrap().is_fresh(),
            final(self).northwest.unwrap().is_fresh(),
            final(self).southeast.unwrap().is_fresh(),
            final(self).southwest.unwrap().is_fresh(),
    {
        let capacity = self.capacity;
        self.northeast = Some(
            Box::new(Node::with_capacity(self.boundary.subdivide(&Quadrant::NorthEast), capacity)),
        );
        self.northwest = Some(
            Box::new(Node::with_capacity(self.boundary.subdivide(&Quadrant::NorthWest), capacity)),
        );
        self.southeast = Some(
            Box::new(Node::with_capacity(self.boundary.subdivide(&Quadrant::SouthEast), capacity)),
        );
        self.southwest = Some(
            Box::new(Node::with_capacity(self.boundary.subdivide(&Quadrant::SouthWest), capacity)),
        );
        self.divided = true;
        proof {
            assert(self.as_mset() =~= old(self).as_mset());
        }
    }

    /// Stores the point in a fresh child if its boundary covers it; the
    /// bucket of a fresh node always has room, since capacities are at
    /// least one.
    fn insert_into_empty(node: &mut Option<Box<Node>>, point: Point) -> (r: bool)
        requires
            old(node).is_some(),
            old(node).unwrap().wf(),
            old(node).unwrap().is_fresh(),
        ensures
            final(node).is_some(),
            final(node).unwrap().wf(),
            final(node).unwrap().boundary == old(node).unwrap().boundary,
            final(node).unwrap().capacity == old(node).unwrap().capacity,
            r == old(node).unwrap().boundary.covers_pt(point),
            r ==> final(node).unwrap().as_mset() =~= old(node).unwrap().as_mset().insert(point),
            !r ==> *final(node) == *old(node),
    {
        let mut boxed = node.take().unwrap();
        let mut stored = false;
        if boxed.boundary.contains(&point) {
            proof {
                assert(boxed.as_mset() =~= Multiset::empty());
            }
            boxed.points.push(point);
            boxed.size = 1;
            stored = true;
            proof {
                assert(boxed.points@ =~= seq![point]);
                assert(boxed.as_mset() =~= old(node).unwrap().as_mset().insert(point));
            }
        }
        *node = Some(boxed);
        stored
    }

    /// Inserts the point into the subtree: refused when the boundary does
    /// not cover it or an equal point is already stored; otherwise it lands
    /// in the first bucket with room along the containment descent, dividing
    /// any full node it passes through. A point on a shared quadrant edge
    /// descends into the first covering child, tried in the fixed order
    /// north-east, north-west, south-east, south-west.
    #[verifier::rlimit(60)]
    fn insert(&mut self, point: Point) -> (r: bool)
        requires
            old(self).wf(),
            old(self).as_mset().len() < usize::MAX,
        ensures
            final(self).wf(),
            final(self).boundary == old(self).boundary,
            final(self).capacity == old(self).capacity,
            r == (old(self).boundary.covers_pt(point) && old(self).as_mset().count(point) == 0),
            r ==> final(self).as_mset() =~= old(self).as_mset().insert(point),
            !r ==> final(self).as_mset() =~= old(self).as_mset(),
        decreases *old(self),
    {
        if !self.boundary.contains(&point) {
            return false;
        }
        if self.contains(&point) {
            return false;
        }
        if self.points.len() < self.capacity {
            self.points.push(point);
            self.size = self.size + 1;
            proof {
                assert(self.as_mset() =~= old(self).as_mset().insert(point));
            }
            return true;
        }
        if self.divided {
            let r1 = Node::opt_insert(&mut self.northeast, point);
            if r1 {
                self.size = self.size + 1;
                proof {
                    assert(self.as_mset() =~= old(self).as_mset().insert(point));
                }
                return true;
            }
            let r2 = Node::opt_insert(&mut self.northwest, point);
            if r2 {
                self.size = self.size + 1;
                proof {
                    assert(self.as_mset() =~= old(self).as_mset().insert(point));
                }
                return true;
            }
            let r3 = Node::opt_insert(&mut self.southeast, point);
            if r3 {
                self.size = self.size + 1;
                proof {
                    assert(self.as_mset() =~= old(self).as_mset().insert(point));
                }
                return true;
            }
            let r4 = Node::opt_insert(&mut self.southwest, point);
            if r4 {
                self.size = self.size + 1;
                proof {
                    assert(self.as_mset() =~= old(self).as_mset().insert(point));
                }
                return true;
            }
            proof {
                lemma_split_covers(
                    old(self).boundary,
                    point.x as int,
                    point.y as int,
                );
                assert(false);
            }
            return false;
        } else {
            self.subdivide();
            let r1 = Node::insert_into_empty(&mut self.northeast, point);
            if r1 {
                self.size = self.size + 1;
                proof {
                    assert(self.as_mset() =~= old(self).as_mset().insert(point));
                }
                return true;
            }
            let r2 = Node::insert_into_empty(&mut self.northwest, point);
            if r2 {
                self.size = self.size + 1;
                proof {
                    assert(self.as_mset() =~= old(self).as_mset().insert(point));
                }
                return true;
            }
            let r3 = Node::insert_into_empty(&mut self.southeast, point);
            if r3 {
                self.size = self.size + 1;
                proof {
                    assert(self.as_mset() =~= old(self).as_mset().insert(point));
                }
                return true;
            }
            let r4 = Node::insert_into_empty(&mut self.southwest, point);
            if r4 {
                self.size = self.size + 1;
                proof {
                    assert(self.as_mset() =~= old(self).as_mset().insert(point));
                }
                return true;
            }
            proof {
                lemma_split_covers(
                    old(self).boundary,
                    point.x as int,
                    point.y as int,
                );
                assert(false);
            }
            return false;
        }
    }

    /// Removes the point with these coordinates, if one is stored along the
    /// containment descent. Children are never pruned or merged back, even
    /// when they empty out.
    fn remove(&mut self, point: &Point) -> (r: bool)
        requires
            old(self).wf(),
        ensures
            final(self).wf(),
            final(self).boundary == old(self).boundary,
            final(self).capacity == old(self).capacity,
            r == (old(self).as_mset().count(*point) > 0),
            r ==> final(self).as_mset() =~= old(self).as_mset().remove(*point),
            !r ==> final(self).as_mset() =~= old(self).as_mset(),
        decreases *old(self),
    {
        if !self.boundary.contains(point) {
            return false;
        }
        let idx = Node::find_in_bucket(&self.points, point);
        match idx {
            Some(i) => {
                proof {
                    assert(self.points@.contains(*point));
                }
                self.points.remove(i);
                self.size = self.size - 1;
                proof {
                    assert(self.as_mset() =~= old(self).as_mset().remove(*point));
                    assert(old(self).as_mset() =~= self.as_mset().insert(*point));
                }
                return true;
            },
            None => {},
        }
        if !self.divided {
            return false;
        }
        let r1 = Node::opt_remove(&mut self.northeast, point);
        if r1 {
            self.size = self.size - 1;
            proof {
                assert(self.as_mset() =~= old(self).as_mset().remove(*point));
                assert(old(self).as_mset() =~= self.as_mset().insert(*point));
            }
            return true;
        }
        let r2 = Node::opt_remove(&mut self.northwest, point);
        if r2 {
            self.size = self.size - 1;
            proof {
                assert(self.as_mset() =~= old(self).as_mset().remove(*point));
                assert(old(self).as_mset() =~= self.as_mset().insert(*point));
            }
            return true;
        }
        let r3 = Node::opt_remove(&mut self.southeast, point);
        if r3 {
            self.size = self.size - 1;
            proof {
                assert(self.as_mset() =~= old(self).as_mset().remove(*point));
                assert(old(self).as_mset() =~= self.as_mset().insert(*point));
            }
            return true;
        }
        let r4 = Node::opt_remove(&mut self.southwest, point);
        if r4 {
            self.size = self.size - 1;
            proof {
                assert(self.as_mset() =~= old(self).as_mset().remove(*point));
                assert(old(self).as_mset() =~= self.as_mset().insert(*point));
            }
            return true;
        }
        false
    }

    fn opt_remove(node: &mut Option<Box<Node>>, point: &Point) -> (r: bool)
        requires
            old(node).is_some(),
            old(node).unwrap().wf(),
        ensures
            final(node).is_some(),
            final(node).unwrap().wf(),
            final(node).unwrap().boundary == old(node).unwrap().boundary,
            final(node).unwrap().capacity == old(node).unwrap().capacity,
            r == (old(node).unwrap().as_mset().count(*point) > 0),
            r ==> final(node).unwrap().as_mset() =~= old(node).unwrap().as_mset().remove(*point),
            !r ==> final(node).unwrap().as_mset() =~= old(node).unwrap().as_mset(),
        decreases *old(node),
    {
        let mut boxed = node.take().unwrap();
        let r = (&mut *boxed).remove(point);
        *node = Some(boxed);
        r
    }

    fn opt_insert(node: &mut Option<Box<Node>>, point: Point) -> (r: bool)
        requires
            old(node).is_some(),
            old(node).unwrap().wf(),
            old(node).unwrap().as_mset().len() < usize::MAX,
        ensures
            final(node).is_some(),
            final(node).unwrap().wf(),
            final(node).unwrap().boundary == old(node).unwrap().boundary,
            final(node).unwrap().capacity == old(node).unwrap().capacity,
            r == (old(node).unwrap().boundary.covers_pt(point) && old(node).unwrap().as_mset().count(
                point,
            ) == 0),
            r ==> final(node).unwrap().as_mset() =~= old(node).unwrap().as_mset().insert(point),
            !r ==> final(node).unwrap().as_mset() =~= old(node).unwrap().as_mset(),
        decreases *old(node),
    {
        let mut boxed = node.take().unwrap();
        let r = (&mut *boxed).insert(point);
        *node = Some(boxed);
        r
    }
}

/// The points of `m` that the shape covers.
pub open spec fn shape_matches<Q: Queryable>(shape: Q, m: Multiset<Point>) -> Multiset<Point> {
    m.filter(|p: Point| shape.covers_point(p.x as int, p.y as int))
}

impl Node {
    /// Appends to `found` every stored point the shape covers, visiting a
    /// subtree only when the shape reaches its boundary.
    fn query<Q: Queryable>(&self, shape: &Q, found: &mut Vec<Point>)
        requires
            self.wf(),
        ensures
            final(found)@.to_multiset() =~= old(found)@.to_multiset().add(
                shape_matches(*shape, self.as_mset()),
            ),
        decreases self,
    {
        if !shape.intersects(&self.boundary) {
            proof {
                assert forall|p: Point| #[trigger]
                    shape_matches(*shape, self.as_mset()).count(p) == 0 by {
                    if self.as_mset().count(p) > 0 && shape.covers_point(p.x as int, p.y as int) {
                        shape.lemma_covered_point_reaches(self.boundary, p.x as int, p.y as int);
                    }
                }
                assert(found@.to_multiset() =~= old(found)@.to_multiset().add(
                    shape_matches(*shape, self.as_mset()),
                ));
            }
            return ;
        }
        let n = self.points.len();
        let mut i: usize = 0;
        while i < n
            invariant
                self.wf(),
                n == self.points@.len(),
                i <= n,
                found@.to_multiset() =~= old(found)@.to_multiset().add(
                    shape_matches(*shape, self.points@.subrange(0, i as int).to_multiset()),
                ),
            decreases n - i,
        {
            let ghost prefix = self.points@.subrange(0, i as int);
            let p = self.points[i];
            if shape.contains(&p) {
                found.push(p);
            }
            i = i + 1;
            proof {
                assert(self.points@.subrange(0, i as int) =~= prefix.push(p));
                assert(prefix.push(p).to_multiset() =~= prefix.to_multiset().insert(p));
                assert(shape_matches(*shape, prefix.to_multiset().insert(p)) =~= if shape
                    .covers_point(p.x as int, p.y as int) {
                    shape_matches(*shape, prefix.to_multiset()).insert(p)
                } else {
                    shape_matches(*shape, prefix.to_multiset())
                });
                assert(found@.to_multiset() =~= old(found)@.to_multiset().add(
                    shape_matches(*shape, self.points@.subrange(0, i as int).to_multiset()),
                ));
            }
        }
        proof {
            assert(self.points@.subrange(0, n as int) =~= self.points@);
        }
        if !self.divided {
            proof {
                assert(self.as_mset() =~= self.points@.to_multiset());
                assert(shape_matches(*shape, self.as_mset()) =~= shape_matches(
                    *shape,
                    self.points@.to_multiset(),
                ));
                assert(found@.to_multiset() =~= old(found)@.to_multiset().add(
                    shape_matches(*shape, self.as_mset()),
                ));
            }
            return ;
        }
        Node::opt_query(&self.northwest, shape, found);
        Node::opt_query(&self.northeast, shape, found);
        Node::opt_query(&self.southwest, shape, found);
        Node::opt_query(&self.southeast, shape, found);
        proof {
            lemma_shape_matches_add(
                *shape,
                self.points@.to_multiset(),
                Node::opt_mset(self.northeast),
            );
            lemma_shape_matches_add(
                *shape,
                self.points@.to_multiset().add(Node::opt_mset(self.northeast)),
                Node::opt_mset(self.northwest),
            );
            lemma_shape_matches_add(
                *shape,
                self.points@.to_multiset().add(Node::opt_mset(self.northeast)).add(
                    Node::opt_mset(self.northwest),
                ),
                Node::opt_mset(self.southeast),
            );
            lemma_shape_matches_add(
                *shape,
                self.points@.to_multiset().add(Node::opt_mset(self.northeast)).add(
                    Node::opt_mset(self.northwest),
                ).add(Node::opt_mset(self.southeast)),
                Node::opt_mset(self.southwest),
            );
            assert(found@.to_multiset() =~= old(found)@.to_multiset().add(
                shape_matches(*shape, self.as_mset()),
            ));
        }
    }

    fn opt_query<Q: Queryable>(node: &Option<Box<Node>>, shape: &Q, found: &mut Vec<Point>)
        requires
            match *node {
                Some(n) => n.wf(),
                None => true,
            },
        ensures
            final(found)@.to_multiset() =~= old(found)@.to_multiset().add(
                shape_matches(*shape, Node::opt_mset(*node)),
            ),
        decreases node,
    {
        match node {
            None => {
                proof {
                    assert(shape_matches(*shape, Multiset::empty()) =~= Multiset::<
                        Point,
                    >::empty());
                    assert(found@.to_multiset() =~= old(found)@.to_multiset().add(
                        shape_matches(*shape, Node::opt_mset(*node)),
                    ));
                }
            },
            Some(n) => n.query(shape, found),
        }
    }
}

/// Filtering by a shape distributes over multiset union.
proof fn lemma_shape_matches_add<Q: Queryable>(shape: Q, a: Multiset<Point>, b: Multiset<Point>)
    ensures
        shape_matches(shape, a.add(b)) =~= shape_matches(shape, a).add(shape_matches(shape, b)),
{
}

/// Splitting a rectangle at the midpoints of its axes leaves no covered
/// point outside all four quadrant boxes.
proof fn lemma_split_covers(r: Rectangle, px: int, py: int)
    requires
        r.valid(),
        r.covers(px, py),
    ensures
        (r.mid_x() <= px <= r.spec_right() && r.spec_top() <= py <= r.mid_y()) || (r.spec_left()
            <= px <= r.mid_x() && r.spec_top() <= py <= r.mid_y()) || (r.mid_x() <= px
            <= r.spec_right() && r.mid_y() <= py <= r.spec_bottom()) || (r.spec_left() <= px
            <= r.mid_x() && r.mid_y() <= py <= r.spec_bottom()),
{
    lemma_mid_between(r.spec_left(), r.spec_right());
    lemma_mid_between(r.spec_top(), r.spec_bottom());
}

/// A quadtree over a fixed root boundary: a dynamic set of distinct points
/// supporting insertion, removal, membership tests and range queries that
/// prune by boundary containment.
pub struct QuadTree {
    root: Box<Node>,
}

impl View for QuadTree {
    type V = Multiset<Point>;

    /// The set of points the tree holds, as a multiset; well-formed trees
    /// never hold a point twice.
    closed spec fn view(&self) -> Multiset<Point> {
        self.root.as_mset()
    }
}

impl QuadTree {
    /// The tree's structural invariant; every tree built by `new` or
    /// `with_capacity` satisfies it and every operation preserves it.
    pub closed spec fn well_formed(self) -> bool {
        self.root.wf()
    }

    /// The root boundary the tree was built over.
    pub closed spec fn spec_boundary(self) -> Rectangle {
        self.root.boundary
    }

    /// The bucket capacity the tree was built with.
    pub closed spec fn spec_capacity(self) -> int {
        self.root.capacity as int
    }

    /// A tree over the given boundary with the default bucket capacity.
    pub fn new(boundary: Rectangle) -> (qt: QuadTree)
        ensures
            qt.well_formed(),
            qt@ =~= Multiset::empty(),
            qt.spec_boundary() == boundary,
            qt.spec_capacity() == CAPACITY as int,
    {
        QuadTree::with_capacity(boundary, CAPACITY)
    }

    /// A tree over the given boundary whose nodes hold up to `capacity`
    /// points before they divide.
    pub fn with_capacity(boundary: Rectangle, capacity: usize) -> (qt: QuadTree)
        requires
            1 <= capacity,
        ensures
            qt.well_formed(),
            qt@ =~= Multiset::empty(),
            qt.spec_boundary() == boundary,
            qt.spec_capacity() == capacity as int,
    {
        proof {
            use_type_invariant(&boundary);
        }
        QuadTree { root: Box::new(Node::with_capacity(boundary, capacity)) }
    }

    /// How many points the tree holds; maintained incrementally, never
    /// recomputed by traversal.
    pub fn size(&self) -> (n: usize)
        requires
            self.well_formed(),
        ensures
            n == self@.len(),
    {
        self.root.size()
    }

    /// True exactly when a point with these coordinates is in the tree.
    pub fn contains(&self, point: &Point) -> (r: bool)
        requires
            self.well_formed(),
        ensures
            r == (self@.count(*point) > 0),
    {
        self.root.contains(point)
    }

    /// Inserts the point. Returns false, leaving the tree unchanged, when
    /// the point lies outside the root boundary or an equal point is already
    /// stored; otherwise stores it and returns true.
    pub fn insert(&mut self, point: Point) -> (r: bool)
        requires
            old(self).well_formed(),
            old(self)@.len() < usize::MAX,
        ensures
            final(self).well_formed(),
            final(self).spec_boundary() == old(self).spec_boundary(),
            final(self).spec_capacity() == old(self).spec_capacity(),
            r == (old(self).spec_boundary().covers_pt(point) && old(self)@.count(point) == 0),
            r ==> final(self)@ =~= old(self)@.insert(point),
            !r ==> final(self)@ =~= old(self)@,
    {
        (&mut *self.root).insert(point)
    }

    /// Removes the point with these coordinates. Returns false, leaving the
    /// tree unchanged, when no equal point is stored.
    pub fn remove(&mut self, point: &Point) -> (r: bool)
        requires
            old(self).well_formed(),
        ensures
            final(self).well_formed(),
            final(self).spec_boundary() == old(self).spec_boundary(),
            final(self).spec_capacity() == old(self).spec_capacity(),
            r == (old(self)@.count(*point) > 0),
            r ==> final(self)@ =~= old(self)@.remove(*point),
            !r ==> final(self)@ =~= old(self)@,
    {
        (&mut *self.root).remove(point)
    }

    /// Every stored point the shape covers, in unspecified order. A subtree
    /// is visited only when the shape reaches its boundary.
    pub fn query<Q: Queryable>(&self, shape: &Q) -> (found: Vec<Point>)
        requires
            self.well_formed(),
        ensures
            found@.to_multiset() =~= shape_matches(*shape, self@),
    {
        let mut found = Vec::<Point>::new();
        proof {
            assert(found@.to_multiset() =~= Multiset::empty());
        }
        self.root.query(shape, &mut found);
        proof {
            assert(found@.to_multiset() =~= shape_matches(*shape, self@));
        }
        found
    }
}

} // verus!
